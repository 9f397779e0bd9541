//! The unsigned secure integer: a fixed-width vector of boolean wires,
//! least-significant wire first, with ripple-carry arithmetic and
//! comparison circuits built from XOR and AND.

use vstd::prelude::*;

verus! {

use crate::cluster::Cluster;
use crate::boolean::{Bool, lives_below, clears, lemma_clears_frame};
use crate::arith::{full_add, full_sub, full_mul, word_val, mod_pow2, lemma_val_split};
use crate::bits::{nat_of_bits, nat_of_bytes, lemma_nat_of_bits_push, lemma_nat_of_bits_bound, lemma_nat_of_bits_injective};
use crate::bitseq::BitVec;
use crate::sharing::{fold_bit, xor_fold};
use vstd::arithmetic::power2::pow2;

/// An unsigned secure integer of fixed width.
pub struct Nat {
    bits: Vec<Bool>,
}

impl Nat {
    /// The wires carrying this value, least significant first.
    pub closed spec fn bits_view(&self) -> Seq<Bool> {
        self.bits@
    }

    /// The fixed bit-width.
    pub open spec fn width(&self) -> int {
        self.bits_view().len() as int
    }

    /// Whether every wire points into the session's arena.
    pub open spec fn lives_in(&self, c: &Cluster) -> bool {
        lives_below(self.bits_view(), c.wires())
    }

    /// The unsigned cleartext this value carries.
    pub open spec fn val(&self, c: &Cluster) -> nat {
        word_val(self.bits_view(), c)
    }

    /// A secret-shared input: each party contributes its share of the
    /// value's bits, and the cleartext is the bitwise XOR-fold of the
    /// shares.
    pub fn new(c: &mut Cluster, shares: &Vec<BitVec>) -> (r: Nat)
        requires
            old(c).wf(),
            shares@.len() == old(c).n(),
            forall|p: int|
                0 <= p < shares@.len() ==> (#[trigger] shares@[p])@.len() == shares@[0]@.len(),
        ensures
            final(c).wf(),
            final(c).n() == old(c).n(),
            final(c).wires() >= old(c).wires(),
            final(c).rounds() == old(c).rounds(),
            r.width() == shares@[0]@.len(),
            r.lives_in(final(c)),
            r.val(final(c)) == nat_of_bits(
                xor_fold(shares@.map_values(|b: BitVec| b@), shares@[0]@.len()),
            ),
            forall|u: int| 0 <= u < old(c).wires() ==> final(c).clear(u) == old(c).clear(u),
    {
        let ghost vs = shares@.map_values(|b: BitVec| b@);
        proof {
            c.lemma_wf_min();
        }
        let n = c.n_parties();
        let width = shares[0].len();
        let mut bits: Vec<Bool> = Vec::new();
        let mut k: usize = 0;
        while k < width
            invariant
                c.wf(),
                c.n() == old(c).n(),
                c.rounds() == old(c).rounds(),
                c.wires() >= old(c).wires(),
                n == c.n(),
                k <= width,
                shares@.len() == n,
                vs == shares@.map_values(|b: BitVec| b@),
                forall|p: int| 0 <= p < shares@.len() ==> (#[trigger] vs[p]).len() == width,
                bits@.len() == k,
                lives_below(bits@, c.wires()),
                forall|u: int| 0 <= u < old(c).wires() ==> c.clear(u) == old(c).clear(u),
                forall|t: int| 0 <= t < k ==> clears(bits@, c)[t] == fold_bit(vs, t),
            decreases width - k,
        {
            let mut col: Vec<bool> = Vec::new();
            let mut p: usize = 0;
            while p < n
                invariant
                    p <= n,
                    shares@.len() == n,
                    vs == shares@.map_values(|b: BitVec| b@),
                    k < width,
                    forall|q: int| 0 <= q < shares@.len() ==> (#[trigger] vs[q]).len() == width,
                    col@.len() == p,
                    forall|q: int| 0 <= q < p ==> col@[q] == (#[trigger] vs[q])[k as int],
                decreases n - p,
            {
                proof {
                    assert(vs[p as int] == shares@[p as int]@);
                }
                let b = shares[p].get(k);
                col.push(b);
                p = p + 1;
            }
            let ghost cpre = *c;
            let w = Bool::new(c, &col);
            proof {
                crate::cluster::lemma_fold_bit_col(vs, k as int, col@);
                lemma_clears_frame(bits@, &cpre, c, cpre.wires());
                assert(clears(bits@.push(w), c) =~= clears(bits@, c).push(w.clear(c)));
                assert forall|t: int| 0 <= t < k + 1 implies clears(bits@.push(w), c)[t]
                    == fold_bit(vs, t) by {
                    if t < k {
                        assert(clears(bits@, c)[t] == clears(bits@, &cpre)[t]);
                    }
                }
            }
            bits.push(w);
            k = k + 1;
        }
        let r = Nat { bits };
        proof {
            assert(clears(r.bits@, c) =~= xor_fold(vs, width as nat));
        }
        r
    }

    /// Surrender the wires, least significant first.
    pub fn into_bits(self) -> (r: Vec<Bool>)
        ensures
            r@ == self.bits_view(),
    {
        self.bits
    }

    /// A publicly known value, given as little-endian bytes; no round is
    /// needed for it, then or later.
    pub fn constant(c: &mut Cluster, value: &[u8]) -> (r: Nat)
        requires
            old(c).wf(),
        ensures
            final(c).wf(),
            final(c).n() == old(c).n(),
            final(c).wires() >= old(c).wires(),
            final(c).rounds() == old(c).rounds(),
            r.width() == 8 * value@.len(),
            r.lives_in(final(c)),
            r.val(final(c)) == nat_of_bytes(value@),
            forall|u: int| 0 <= u < old(c).wires() ==> final(c).clear(u) == old(c).clear(u),
    {
        let vals = crate::bits::to_bits(value);
        let ghost bitseq = vals@;
        let mut bits: Vec<Bool> = Vec::new();
        let mut k: usize = 0;
        while k < vals.len()
            invariant
                c.wf(),
                c.n() == old(c).n(),
                c.rounds() == old(c).rounds(),
                c.wires() >= old(c).wires(),
                k <= vals@.len(),
                vals@ == bitseq,
                bits@.len() == k,
                lives_below(bits@, c.wires()),
                forall|u: int| 0 <= u < old(c).wires() ==> c.clear(u) == old(c).clear(u),
                clears(bits@, c) =~= bitseq.take(k as int),
            decreases vals@.len() - k,
        {
            let b = vals[k];
            let ghost cpre = *c;
            let w = Bool::constant(c, b);
            proof {
                lemma_clears_frame(bits@, &cpre, c, cpre.wires());
                assert(clears(bits@.push(w), c) =~= clears(bits@, c).push(w.clear(c)));
                assert(clears(bits@, c).push(b) =~= bitseq.take(k as int + 1));
            }
            bits.push(w);
            k = k + 1;
        }
        let r = Nat { bits };
        proof {
            assert(bitseq.take(bitseq.len() as int) =~= bitseq);
        }
        r
    }

    /// Addition, wrapped to the common width; the operands must agree on
    /// width.
    pub fn add(c: &mut Cluster, a: &Nat, b: &Nat) -> (r: Nat)
        requires
            old(c).wf(),
            a.lives_in(old(c)),
            b.lives_in(old(c)),
            a.width() == b.width(),
        ensures
            final(c).wf(),
            final(c).n() == old(c).n(),
            final(c).wires() >= old(c).wires(),
            final(c).rounds() == old(c).rounds(),
            r.width() == a.width(),
            r.lives_in(final(c)),
            r.val(final(c)) == mod_pow2(a.val(old(c)) + b.val(old(c)), a.width() as nat),
            forall|u: int| 0 <= u < old(c).wires() ==> final(c).clear(u) == old(c).clear(u),
    {
        Nat { bits: full_add(c, &a.bits, &b.bits) }
    }

    /// Subtraction, wrapped to the common width.
    pub fn sub(c: &mut Cluster, a: &Nat, b: &Nat) -> (r: Nat)
        requires
            old(c).wf(),
            a.lives_in(old(c)),
            b.lives_in(old(c)),
            a.width() == b.width(),
        ensures
            final(c).wf(),
            final(c).n() == old(c).n(),
            final(c).wires() >= old(c).wires(),
            final(c).rounds() == old(c).rounds(),
            r.width() == a.width(),
            r.lives_in(final(c)),
            r.val(final(c)) == mod_pow2(
                (a.val(old(c)) + pow2(a.width() as nat) - b.val(old(c))) as nat,
                a.width() as nat,
            ),
            forall|u: int| 0 <= u < old(c).wires() ==> final(c).clear(u) == old(c).clear(u),
    {
        Nat { bits: full_sub(c, &a.bits, &b.bits) }
    }

    /// Multiplication, wrapped to the common width.
    pub fn mul(c: &mut Cluster, a: &Nat, b: &Nat) -> (r: Nat)
        requires
            old(c).wf(),
            a.lives_in(old(c)),
            b.lives_in(old(c)),
            a.width() == b.width(),
        ensures
            final(c).wf(),
            final(c).n() == old(c).n(),
            final(c).wires() >= old(c).wires(),
            final(c).rounds() == old(c).rounds(),
            r.width() == a.width(),
            r.lives_in(final(c)),
            r.val(final(c)) == mod_pow2(a.val(old(c)) * b.val(old(c)), a.width() as nat),
            forall|u: int| 0 <= u < old(c).wires() ==> final(c).clear(u) == old(c).clear(u),
    {
        Nat { bits: full_mul(c, &a.bits, &b.bits) }
    }

    /// Bitwise choice: the guard's cleartext picks `a` when true, `b`
    /// when false, for every pair of wires.
    pub fn mux(c: &mut Cluster, g: &Bool, a: &Nat, b: &Nat) -> (r: Nat)
        requires
            old(c).wf(),
            g.lives_in(old(c)),
            a.lives_in(old(c)),
            b.lives_in(old(c)),
            a.width() == b.width(),
        ensures
            final(c).wf(),
            final(c).n() == old(c).n(),
            final(c).wires() >= old(c).wires(),
            final(c).rounds() == old(c).rounds(),
            r.width() == a.width(),
            r.lives_in(final(c)),
            r.val(final(c)) == if g.clear(old(c)) {
                a.val(old(c))
            } else {
                b.val(old(c))
            },
            forall|u: int| 0 <= u < old(c).wires() ==> final(c).clear(u) == old(c).clear(u),
    {
        let r = Nat { bits: mux_wires(c, g, &a.bits, &b.bits) };
        proof {
            if g.clear(old(c)) {
                lemma_nat_of_bits_injective(clears(r.bits@, c), clears(a.bits@, old(c)));
            } else {
                lemma_nat_of_bits_injective(clears(r.bits@, c), clears(b.bits@, old(c)));
            }
        }
        r
    }

    /// Equality of values, as the AND-fold of bitwise equality.
    pub fn eq(c: &mut Cluster, a: &Nat, b: &Nat) -> (r: Bool)
        requires
            old(c).wf(),
            a.lives_in(old(c)),
            b.lives_in(old(c)),
            a.width() == b.width(),
        ensures
            final(c).wf(),
            final(c).n() == old(c).n(),
            final(c).wires() >= old(c).wires(),
            final(c).rounds() == old(c).rounds(),
            r.lives_in(final(c)),
            r.clear(final(c)) == (a.val(old(c)) == b.val(old(c))),
            forall|u: int| 0 <= u < old(c).wires() ==> final(c).clear(u) == old(c).clear(u),
    {
        eq_wires(c, &a.bits, &b.bits)
    }

    /// Whether `a`'s value is at least `b`'s: both operands are
    /// zero-extended by one bit, subtracted, and the difference's sign
    /// bit negated.
    pub fn gte(c: &mut Cluster, a: &Nat, b: &Nat) -> (r: Bool)
        requires
            old(c).wf(),
            a.lives_in(old(c)),
            b.lives_in(old(c)),
            a.width() == b.width(),
        ensures
            final(c).wf(),
            final(c).n() == old(c).n(),
            final(c).wires() >= old(c).wires(),
            final(c).rounds() == old(c).rounds(),
            r.lives_in(final(c)),
            r.clear(final(c)) == (a.val(old(c)) >= b.val(old(c))),
            forall|u: int| 0 <= u < old(c).wires() ==> final(c).clear(u) == old(c).clear(u),
    {
        gte_wires(c, &a.bits, &b.bits)
    }

    /// Whether `a`'s value is below `b`'s.
    pub fn lt(c: &mut Cluster, a: &Nat, b: &Nat) -> (r: Bool)
        requires
            old(c).wf(),
            a.lives_in(old(c)),
            b.lives_in(old(c)),
            a.width() == b.width(),
        ensures
            final(c).wf(),
            final(c).n() == old(c).n(),
            final(c).wires() >= old(c).wires(),
            final(c).rounds() == old(c).rounds(),
            r.lives_in(final(c)),
            r.clear(final(c)) == (a.val(old(c)) < b.val(old(c))),
            forall|u: int| 0 <= u < old(c).wires() ==> final(c).clear(u) == old(c).clear(u),
    {
        let ge = Nat::gte(c, a, b);
        Bool::not(c, &ge)
    }

    /// Whether `a`'s value exceeds `b`'s.
    pub fn gt(c: &mut Cluster, a: &Nat, b: &Nat) -> (r: Bool)
        requires
            old(c).wf(),
            a.lives_in(old(c)),
            b.lives_in(old(c)),
            a.width() == b.width(),
        ensures
            final(c).wf(),
            final(c).n() == old(c).n(),
            final(c).wires() >= old(c).wires(),
            final(c).rounds() == old(c).rounds(),
            r.lives_in(final(c)),
            r.clear(final(c)) == (a.val(old(c)) > b.val(old(c))),
            forall|u: int| 0 <= u < old(c).wires() ==> final(c).clear(u) == old(c).clear(u),
    {
        let ge = Nat::gte(c, b, a);
        Bool::not(c, &ge)
    }

    /// Whether `a`'s value is at most `b`'s.
    pub fn lte(c: &mut Cluster, a: &Nat, b: &Nat) -> (r: Bool)
        requires
            old(c).wf(),
            a.lives_in(old(c)),
            b.lives_in(old(c)),
            a.width() == b.width(),
        ensures
            final(c).wf(),
            final(c).n() == old(c).n(),
            final(c).wires() >= old(c).wires(),
            final(c).rounds() == old(c).rounds(),
            r.lives_in(final(c)),
            r.clear(final(c)) == (a.val(old(c)) <= b.val(old(c))),
            forall|u: int| 0 <= u < old(c).wires() ==> final(c).clear(u) == old(c).clear(u),
    {
        Nat::gte(c, b, a)
    }

    /// The cleartext value as little-endian bytes, forcing rounds as
    /// needed; every party would read the same bytes.
    pub fn get(c: &mut Cluster, a: &Nat) -> (r: Vec<u8>)
        requires
            old(c).wf(),
            a.lives_in(old(c)),
            a.width() % 8 == 0,
        ensures
            final(c).wf(),
            final(c).n() == old(c).n(),
            final(c).wires() == old(c).wires(),
            r@.len() == a.width() / 8,
            nat_of_bytes(r@) == a.val(old(c)),
            forall|u: int| 0 <= u < old(c).wires() ==> final(c).clear(u) == old(c).clear(u),
    {
        let bools = get_wires(c, &a.bits);
        crate::bits::from_bits(bools.as_slice())
    }
}

/// Bitwise MUX over two equal-length wire vectors.
pub fn mux_wires(c: &mut Cluster, g: &Bool, a: &Vec<Bool>, b: &Vec<Bool>) -> (r: Vec<Bool>)
    requires
        old(c).wf(),
        g.lives_in(old(c)),
        lives_below(a@, old(c).wires()),
        lives_below(b@, old(c).wires()),
        a@.len() == b@.len(),
    ensures
        final(c).wf(),
        final(c).n() == old(c).n(),
        final(c).wires() >= old(c).wires(),
        final(c).rounds() == old(c).rounds(),
        r@.len() == a@.len(),
        lives_below(r@, final(c).wires()),
        clears(r@, final(c)) =~= if g.clear(old(c)) {
            clears(a@, old(c))
        } else {
            clears(b@, old(c))
        },
        forall|u: int| 0 <= u < old(c).wires() ==> final(c).clear(u) == old(c).clear(u),
{
    let ghost w0 = c.wires();
    let ghost av = clears(a@, c);
    let ghost bv = clears(b@, c);
    let ghost gv = g.clear(c);
    let size = a.len();
    let mut dest: Vec<Bool> = Vec::new();
    let mut i: usize = 0;
    while i < size
        invariant
            c.wf(),
            c.n() == old(c).n(),
            c.rounds() == old(c).rounds(),
            c.wires() >= w0,
            w0 == old(c).wires(),
            i <= size,
            size == a@.len(),
            b@.len() == size,
            av.len() == size,
            bv.len() == size,
            g.lives_in(old(c)),
            lives_below(a@, w0 as int),
            lives_below(b@, w0 as int),
            clears(a@, c) == av,
            clears(b@, c) == bv,
            g.clear(c) == gv,
            dest@.len() == i,
            lives_below(dest@, c.wires()),
            forall|u: int| 0 <= u < w0 ==> c.clear(u) == old(c).clear(u),
            clears(dest@, c) =~= (if gv {
                av.take(i as int)
            } else {
                bv.take(i as int)
            }),
        decreases size - i,
    {
        let ai = a[i];
        let bi = b[i];
        let ghost cpre = *c;
        let di = Bool::mux(c, g, &ai, &bi);
        proof {
            lemma_clears_frame(dest@, &cpre, c, cpre.wires());
            assert(clears(dest@.push(di), c) =~= clears(dest@, c).push(di.clear(c)));
            if gv {
                assert(clears(dest@, c).push(di.clear(c)) =~= av.take(i as int + 1));
            } else {
                assert(clears(dest@, c).push(di.clear(c)) =~= bv.take(i as int + 1));
            }
        }
        dest.push(di);
        i = i + 1;
    }
    proof {
        assert(av.take(size as int) =~= av);
        assert(bv.take(size as int) =~= bv);
    }
    dest
}

/// The AND-fold of bitwise equality over two equal-length wire vectors.
pub fn eq_wires(c: &mut Cluster, a: &Vec<Bool>, b: &Vec<Bool>) -> (r: Bool)
    requires
        old(c).wf(),
        lives_below(a@, old(c).wires()),
        lives_below(b@, old(c).wires()),
        a@.len() == b@.len(),
    ensures
        final(c).wf(),
        final(c).n() == old(c).n(),
        final(c).wires() >= old(c).wires(),
        final(c).rounds() == old(c).rounds(),
        r.lives_in(final(c)),
        r.clear(final(c)) == (word_val(a@, old(c)) == word_val(b@, old(c))),
        forall|u: int| 0 <= u < old(c).wires() ==> final(c).clear(u) == old(c).clear(u),
{
    let ghost w0 = c.wires();
    let ghost av = clears(a@, c);
    let ghost bv = clears(b@, c);
    let size = a.len();
    let mut acc = Bool::constant(c, true);
    let mut i: usize = 0;
    proof {
        assert(av.take(0) =~= bv.take(0));
    }
    while i < size
        invariant
            c.wf(),
            c.n() == old(c).n(),
            c.rounds() == old(c).rounds(),
            c.wires() >= w0,
            w0 == old(c).wires(),
            i <= size,
            size == a@.len(),
            b@.len() == size,
            av.len() == size,
            bv.len() == size,
            lives_below(a@, w0 as int),
            lives_below(b@, w0 as int),
            clears(a@, c) == av,
            clears(b@, c) == bv,
            acc.lives_in(c),
            forall|u: int| 0 <= u < w0 ==> c.clear(u) == old(c).clear(u),
            acc.clear(c) == (av.take(i as int) =~= bv.take(i as int)),
        decreases size - i,
    {
        let ai = a[i];
        let bi = b[i];
        let ghost cpre = *c;
        let e = Bool::eq(c, &ai, &bi);
        let acc2 = Bool::and(c, &acc, &e);
        proof {
            assert(av.take(i as int + 1) =~= av.take(i as int).push(av[i as int]));
            assert(bv.take(i as int + 1) =~= bv.take(i as int).push(bv[i as int]));
            if acc2.clear(c) {
                assert(av.take(i as int + 1) =~= bv.take(i as int + 1));
            } else {
                if av.take(i as int) =~= bv.take(i as int) {
                    assert(av[i as int] != bv[i as int]);
                    assert(av.take(i as int + 1)[i as int] != bv.take(i as int + 1)[i as int]);
                } else {
                    let t = choose|t: int|
                        0 <= t < i && av.take(i as int)[t] != bv.take(i as int)[t];
                    assert(av.take(i as int + 1)[t] != bv.take(i as int + 1)[t]);
                }
            }
        }
        acc = acc2;
        i = i + 1;
    }
    proof {
        assert(av.take(size as int) =~= av);
        assert(bv.take(size as int) =~= bv);
        if av =~= bv {
        } else {
            if word_val(a@, old(c)) == word_val(b@, old(c)) {
                lemma_nat_of_bits_injective(av, bv);
            }
        }
    }
    acc
}

/// Zero-extend by one wire, subtract, and negate the sign: at-least
/// comparison for unsigned values.
pub fn gte_wires(c: &mut Cluster, a: &Vec<Bool>, b: &Vec<Bool>) -> (r: Bool)
    requires
        old(c).wf(),
        lives_below(a@, old(c).wires()),
        lives_below(b@, old(c).wires()),
        a@.len() == b@.len(),
    ensures
        final(c).wf(),
        final(c).n() == old(c).n(),
        final(c).wires() >= old(c).wires(),
        final(c).rounds() == old(c).rounds(),
        r.lives_in(final(c)),
        r.clear(final(c)) == (word_val(a@, old(c)) >= word_val(b@, old(c))),
        forall|u: int| 0 <= u < old(c).wires() ==> final(c).clear(u) == old(c).clear(u),
{
    let ghost w0 = c.wires();
    let ghost av = clears(a@, c);
    let ghost bv = clears(b@, c);
    let size = a.len();
    // zero-extension avoids a wrapped difference being miscompared
    let z = Bool::constant(c, false);
    let mut ea: Vec<Bool> = Vec::new();
    let mut eb: Vec<Bool> = Vec::new();
    let mut i: usize = 0;
    while i < size
        invariant
            i <= size,
            size == a@.len(),
            b@.len() == size,
            ea@ =~= a@.take(i as int),
            eb@ =~= b@.take(i as int),
        decreases size - i,
    {
        let ai = a[i];
        let bi = b[i];
        ea.push(ai);
        eb.push(bi);
        i = i + 1;
    }
    ea.push(z);
    eb.push(z);
    let ghost c1 = *c;
    let diff = full_sub(c, &ea, &eb);
    let ghost c2 = *c;
    let sign = diff[size];
    let r = Bool::not(c, &sign);
    proof {
        lemma_clears_frame(diff@, &c2, c, c2.wires());
        assert(clears(diff@, c) =~= clears(diff@, &c2));
        assert(a@.take(size as int) =~= a@);
        assert(b@.take(size as int) =~= b@);
        assert(clears(ea@, &c1) =~= clears(a@, &c1).push(false));
        assert(clears(eb@, &c1) =~= clears(b@, &c1).push(false));
        lemma_clears_frame(a@, old(c), &c1, w0 as int);
        lemma_clears_frame(b@, old(c), &c1, w0 as int);
        lemma_nat_of_bits_push(clears(a@, &c1), false);
        lemma_nat_of_bits_push(clears(b@, &c1), false);
        let am = nat_of_bits(av);
        let bm = nat_of_bits(bv);
        let k = (size + 1) as nat;
        lemma_nat_of_bits_bound(av);
        lemma_nat_of_bits_bound(bv);
        vstd::arithmetic::power2::lemma_pow2_unfold(k);
        let total = (am + pow2(k) - bm) as nat;
        let dv = clears(diff@, c);
        vstd::arithmetic::power2::lemma_pow2_strictly_increases(size as nat, k);
        // the wrapped difference and its top bit
        assert(nat_of_bits(dv) == mod_pow2(total, k));
        if am >= bm {
            crate::arith::lemma_wrap((am - bm) as nat, 1int, total, k);
            assert(nat_of_bits(dv) == am - bm);
        } else {
            vstd::arithmetic::div_mod::lemma_small_mod(total, pow2(k));
            assert(nat_of_bits(dv) == total);
        }
        lemma_val_split(dv, size as int);
        lemma_nat_of_bits_bound(dv.take(size as int));
        assert(dv.skip(size as int) =~= seq![dv[size as int]]);
        assert(nat_of_bits(dv.skip(size as int)) == (if dv[size as int] {
            1nat
        } else {
            0nat
        }) + 2 * nat_of_bits(dv.skip(size as int).skip(1)));
        assert(dv.skip(size as int).skip(1) =~= Seq::<bool>::empty());
        assert(nat_of_bits(Seq::<bool>::empty()) == 0);
        assert(sign.clear(c) == dv[size as int]);
        if dv[size as int] {
            assert(nat_of_bits(dv) == nat_of_bits(dv.take(size as int)) + pow2(size as nat) * 1);
        } else {
            assert(nat_of_bits(dv) == nat_of_bits(dv.take(size as int)) + pow2(size as nat) * 0);
        }
    }
    r
}

/// Read every wire's cleartext, in order, forcing rounds as needed.
pub fn get_wires(c: &mut Cluster, v: &Vec<Bool>) -> (r: Vec<bool>)
    requires
        old(c).wf(),
        lives_below(v@, old(c).wires()),
    ensures
        final(c).wf(),
        final(c).n() == old(c).n(),
        final(c).wires() == old(c).wires(),
        r@ =~= clears(v@, old(c)),
        forall|u: int| 0 <= u < old(c).wires() ==> final(c).clear(u) == old(c).clear(u),
{
    let ghost w0 = c.wires();
    let ghost vv = clears(v@, c);
    let size = v.len();
    let mut out: Vec<bool> = Vec::new();
    let mut i: usize = 0;
    while i < size
        invariant
            c.wf(),
            c.n() == old(c).n(),
            c.wires() == w0,
            w0 == old(c).wires(),
            i <= size,
            size == v@.len(),
            vv.len() == size,
            lives_below(v@, w0 as int),
            clears(v@, c) == vv,
            out@.len() == i,
            forall|u: int| 0 <= u < w0 ==> c.clear(u) == old(c).clear(u),
            out@ =~= vv.take(i as int),
        decreases size - i,
    {
        let vi = v[i];
        let ghost cpre = *c;
        let b = Bool::get(c, &vi);
        proof {
            lemma_clears_frame(v@, &cpre, c, w0 as int);
            assert(vv.take(i as int).push(vv[i as int]) =~= vv.take(i as int + 1));
        }
        out.push(b);
        i = i + 1;
    }
    proof {
        assert(vv.take(size as int) =~= vv);
    }
    out
}

} // verus!
