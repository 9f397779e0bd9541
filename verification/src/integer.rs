//! The signed secure integer: a two's-complement vector of boolean
//! wires, least-significant wire first, the top wire the sign. Division
//! strips signs, runs the unsigned restoring divider on the magnitudes,
//! and conditionally negates: the quotient truncates toward zero and the
//! remainder takes the dividend's sign.

use vstd::prelude::*;

verus! {

use crate::cluster::Cluster;
use crate::boolean::{Bool, lives_below, clears, lemma_clears_frame};
use crate::arith::{
    full_add,
    full_sub,
    full_mul,
    full_div,
    cond_neg,
    word_val,
    mod_pow2,
    lemma_wrap,
    lemma_top_bit,
    lemma_not_val,
};
use crate::bits::{nat_of_bits, nat_of_bytes, lemma_nat_of_bits_push, lemma_nat_of_bits_bound};
use crate::bitseq::{BitVec, xor_bits};
use crate::sharing::xor_fold;
use crate::natural::{mux_wires, eq_wires, get_wires};
use vstd::arithmetic::power2::pow2;

/// The two's-complement reading of a bit string, least-significant bit
/// first, the last bit the sign.
pub open spec fn int_of_bits(s: Seq<bool>) -> int {
    if s.len() == 0 {
        0
    } else if s[s.len() - 1] {
        nat_of_bits(s) - pow2(s.len())
    } else {
        nat_of_bits(s) as int
    }
}

/// The magnitude of a signed value.
pub open spec fn mag(x: int) -> nat {
    if x >= 0 {
        x as nat
    } else {
        (-x) as nat
    }
}

/// A two's-complement value lies within one sign's reach of its width.
pub proof fn lemma_int_range(s: Seq<bool>)
    requires
        s.len() >= 1,
    ensures
        -(pow2((s.len() - 1) as nat) as int) <= int_of_bits(s) < pow2((s.len() - 1) as nat),
        mag(int_of_bits(s)) <= pow2((s.len() - 1) as nat),
        int_of_bits(s) >= 0 ==> int_of_bits(s) == nat_of_bits(s),
        int_of_bits(s) < 0 ==> nat_of_bits(s) == int_of_bits(s) + pow2(s.len()),
{
    lemma_top_bit(s);
    lemma_nat_of_bits_bound(s);
    vstd::arithmetic::power2::lemma_pow2_unfold(s.len());
}

/// A signed secure integer of fixed width.
pub struct Int {
    bits: Vec<Bool>,
}

impl Int {
    /// The wires carrying this value, least significant first.
    pub closed spec fn bits_view(&self) -> Seq<Bool> {
        self.bits@
    }

    /// The fixed bit-width.
    pub open spec fn width(&self) -> int {
        self.bits_view().len() as int
    }

    /// Whether every wire points into the session's arena.
    pub open spec fn lives_in(&self, c: &Cluster) -> bool {
        lives_below(self.bits_view(), c.wires())
    }

    /// The raw unsigned reading of the wires.
    pub open spec fn uval(&self, c: &Cluster) -> nat {
        word_val(self.bits_view(), c)
    }

    /// The signed cleartext this value carries.
    pub open spec fn ival(&self, c: &Cluster) -> int {
        int_of_bits(clears(self.bits_view(), c))
    }

    /// A secret-shared input: each party contributes its share of the
    /// value's bits.
    pub fn new(c: &mut Cluster, shares: &Vec<BitVec>) -> (r: Int)
        requires
            old(c).wf(),
            shares@.len() == old(c).n(),
            forall|p: int|
                0 <= p < shares@.len() ==> (#[trigger] shares@[p])@.len() == shares@[0]@.len(),
        ensures
            final(c).wf(),
            final(c).n() == old(c).n(),
            final(c).wires() >= old(c).wires(),
            final(c).rounds() == old(c).rounds(),
            r.width() == shares@[0]@.len(),
            r.lives_in(final(c)),
            r.uval(final(c)) == nat_of_bits(
                xor_fold(shares@.map_values(|b: BitVec| b@), shares@[0]@.len()),
            ),
            forall|u: int| 0 <= u < old(c).wires() ==> final(c).clear(u) == old(c).clear(u),
    {
        let n = crate::natural::Nat::new(c, shares);
        Int { bits: n.into_bits() }
    }

    /// A publicly known value, given as little-endian two's-complement
    /// bytes.
    pub fn constant(c: &mut Cluster, value: &[u8]) -> (r: Int)
        requires
            old(c).wf(),
        ensures
            final(c).wf(),
            final(c).n() == old(c).n(),
            final(c).wires() >= old(c).wires(),
            final(c).rounds() == old(c).rounds(),
            r.width() == 8 * value@.len(),
            r.lives_in(final(c)),
            r.uval(final(c)) == nat_of_bytes(value@),
            forall|u: int| 0 <= u < old(c).wires() ==> final(c).clear(u) == old(c).clear(u),
    {
        let n = crate::natural::Nat::constant(c, value);
        Int { bits: n.into_bits() }
    }

    /// Bitwise XOR of two equal-width values.
    pub fn xor(c: &mut Cluster, a: &Int, b: &Int) -> (r: Int)
        requires
            old(c).wf(),
            a.lives_in(old(c)),
            b.lives_in(old(c)),
            a.width() == b.width(),
        ensures
            final(c).wf(),
            final(c).n() == old(c).n(),
            final(c).wires() >= old(c).wires(),
            final(c).rounds() == old(c).rounds(),
            r.width() == a.width(),
            r.lives_in(final(c)),
            clears(r.bits_view(), final(c)) =~= xor_bits(
                clears(a.bits_view(), old(c)),
                clears(b.bits_view(), old(c)),
            ),
            forall|u: int| 0 <= u < old(c).wires() ==> final(c).clear(u) == old(c).clear(u),
    {
        Int { bits: xor_wires(c, &a.bits, &b.bits) }
    }

    /// Addition, wrapped two's-complement style to the common width.
    pub fn add(c: &mut Cluster, a: &Int, b: &Int) -> (r: Int)
        requires
            old(c).wf(),
            a.lives_in(old(c)),
            b.lives_in(old(c)),
            a.width() == b.width(),
        ensures
            final(c).wf(),
            final(c).n() == old(c).n(),
            final(c).wires() >= old(c).wires(),
            final(c).rounds() == old(c).rounds(),
            r.width() == a.width(),
            r.lives_in(final(c)),
            r.uval(final(c)) == mod_pow2(a.uval(old(c)) + b.uval(old(c)), a.width() as nat),
            forall|u: int| 0 <= u < old(c).wires() ==> final(c).clear(u) == old(c).clear(u),
    {
        Int { bits: full_add(c, &a.bits, &b.bits) }
    }

    /// Subtraction, wrapped two's-complement style.
    pub fn sub(c: &mut Cluster, a: &Int, b: &Int) -> (r: Int)
        requires
            old(c).wf(),
            a.lives_in(old(c)),
            b.lives_in(old(c)),
            a.width() == b.width(),
        ensures
            final(c).wf(),
            final(c).n() == old(c).n(),
            final(c).wires() >= old(c).wires(),
            final(c).rounds() == old(c).rounds(),
            r.width() == a.width(),
            r.lives_in(final(c)),
            r.uval(final(c)) == mod_pow2(
                (a.uval(old(c)) + pow2(a.width() as nat) - b.uval(old(c))) as nat,
                a.width() as nat,
            ),
            forall|u: int| 0 <= u < old(c).wires() ==> final(c).clear(u) == old(c).clear(u),
    {
        Int { bits: full_sub(c, &a.bits, &b.bits) }
    }

    /// Multiplication, wrapped two's-complement style.
    pub fn mul(c: &mut Cluster, a: &Int, b: &Int) -> (r: Int)
        requires
            old(c).wf(),
            a.lives_in(old(c)),
            b.lives_in(old(c)),
            a.width() == b.width(),
        ensures
            final(c).wf(),
            final(c).n() == old(c).n(),
            final(c).wires() >= old(c).wires(),
            final(c).rounds() == old(c).rounds(),
            r.width() == a.width(),
            r.lives_in(final(c)),
            r.uval(final(c)) == mod_pow2(a.uval(old(c)) * b.uval(old(c)), a.width() as nat),
            forall|u: int| 0 <= u < old(c).wires() ==> final(c).clear(u) == old(c).clear(u),
    {
        Int { bits: full_mul(c, &a.bits, &b.bits) }
    }

    /// The magnitude, as an unsigned reading: build a vector filled with
    /// the sign bit, add it, and XOR with it — a conditional
    /// two's-complement negation.
    pub fn abs(c: &mut Cluster, a: &Int) -> (r: Int)
        requires
            old(c).wf(),
            a.lives_in(old(c)),
            a.width() >= 1,
        ensures
            final(c).wf(),
            final(c).n() == old(c).n(),
            final(c).wires() >= old(c).wires(),
            final(c).rounds() == old(c).rounds(),
            r.width() == a.width(),
            r.lives_in(final(c)),
            r.uval(final(c)) == mag(a.ival(old(c))),
            forall|u: int| 0 <= u < old(c).wires() ==> final(c).clear(u) == old(c).clear(u),
    {
        let size = a.bits.len();
        let ghost av = clears(a.bits@, c);
        let ghost w0 = c.wires();
        let sign = a.bits[size - 1];
        // a vector of the sign bit in every position
        let mut fill: Vec<Bool> = Vec::new();
        let mut i: usize = 0;
        while i < size
            invariant
                i <= size,
                size == a.bits_view().len(),
                fill@ =~= Seq::new(i as nat, |t: int| sign),
            decreases size - i,
        {
            fill.push(sign);
            i = i + 1;
        }
        let ghost c1 = *c;
        let sum = full_add(c, &a.bits, &fill);
        let ghost c2 = *c;
        let r = Int { bits: xor_wires(c, &sum, &fill) };
        proof {
            let s0 = av[size - 1];
            let sv = clears(fill@, &c1);
            assert(sv =~= Seq::new(size as nat, |t: int| s0));
            let fv: nat = if s0 {
                (pow2(size as nat) - 1) as nat
            } else {
                0nat
            };
            assert(nat_of_bits(sv) == fv) by {
                if s0 {
                    lemma_not_val(crate::bitseq::zero_bits(size as nat), sv);
                    crate::bitseq::lemma_zero_bits_value(size as nat);
                } else {
                    assert(sv =~= crate::bitseq::zero_bits(size as nat));
                    crate::bitseq::lemma_zero_bits_value(size as nat);
                }
            }
            let am = nat_of_bits(av);
            lemma_nat_of_bits_bound(av);
            lemma_int_range(av);
            lemma_top_bit(av);
            vstd::arithmetic::power2::lemma_pow2_unfold(size as nat);
            vstd::arithmetic::power2::lemma_pow2_pos((size - 1) as nat);
            let sumv = clears(sum@, &c2);
            assert(nat_of_bits(sumv) == mod_pow2(am + fv, size as nat));
            let rv = clears(r.bits@, c);
            assert(rv =~= xor_bits(sumv, clears(fill@, &c2)));
            assert(clears(fill@, &c2) =~= sv);
            if s0 {
                // negative: the wrapped sum is the value less one, and
                // the XOR complements it
                assert(am >= pow2((size - 1) as nat));
                assert(am + fv == (am - 1) + 1 * pow2(size as nat));
                lemma_wrap((am - 1) as nat, 1int, (am + fv) as nat, size as nat);
                assert(nat_of_bits(sumv) == am - 1);
                assert forall|t: int| 0 <= t < size implies rv[t] == !sumv[t] by {
                    assert(sv[t] == true);
                }
                lemma_not_val(sumv, rv);
                assert(nat_of_bits(rv) == pow2(size as nat) - am);
            } else {
                vstd::arithmetic::div_mod::lemma_small_mod(am, pow2(size as nat));
                assert(nat_of_bits(sumv) == am);
                assert(rv =~= sumv);
            }
        }
        r
    }

    /// Signed division: magnitudes through the restoring divider, the
    /// quotient negated when the operands' signs differ, so it truncates
    /// toward zero. With a zero divisor the magnitude quotient is all
    /// ones and the magnitude remainder the dividend's magnitude.
    pub fn div(c: &mut Cluster, a: &Int, b: &Int) -> (r: Int)
        requires
            old(c).wf(),
            a.lives_in(old(c)),
            b.lives_in(old(c)),
            a.width() == b.width(),
            a.width() >= 1,
        ensures
            final(c).wf(),
            final(c).n() == old(c).n(),
            final(c).wires() >= old(c).wires(),
            final(c).rounds() == old(c).rounds(),
            r.width() == a.width(),
            r.lives_in(final(c)),
            r.uval(final(c)) == ({
                let qm = if mag(b.ival(old(c))) > 0 {
                    mag(a.ival(old(c))) / mag(b.ival(old(c)))
                } else {
                    (pow2(a.width() as nat) - 1) as nat
                };
                if (a.ival(old(c)) < 0) != (b.ival(old(c)) < 0) {
                    mod_pow2((pow2(a.width() as nat) - qm) as nat, a.width() as nat)
                } else {
                    qm
                }
            }),
            b.ival(old(c)) != 0 && ((a.ival(old(c)) < 0) != (b.ival(old(c)) < 0)) ==> r.ival(
                final(c),
            ) == -((mag(a.ival(old(c))) / mag(b.ival(old(c)))) as int),
            b.ival(old(c)) != 0 && ((a.ival(old(c)) < 0) == (b.ival(old(c)) < 0)) && mag(
                a.ival(old(c)),
            ) / mag(b.ival(old(c))) < pow2((a.width() - 1) as nat) ==> r.ival(final(c)) == mag(
                a.ival(old(c)),
            ) / mag(b.ival(old(c))),
            forall|u: int| 0 <= u < old(c).wires() ==> final(c).clear(u) == old(c).clear(u),
    {
        let size = a.bits.len();
        let ghost av = clears(a.bits@, c);
        let ghost bv = clears(b.bits@, c);
        let a_abs = Int::abs(c, a);
        let ghost c1 = *c;
        let b_abs = Int::abs(c, b);
        let ghost c2 = *c;
        let sa = a.bits[size - 1];
        let sb = b.bits[size - 1];
        let sign = Bool::xor(c, &sa, &sb);
        let ghost c3 = *c;
        let parts = full_div(c, &a_abs.bits, &b_abs.bits);
        let ghost c4 = *c;
        let r = Int { bits: cond_neg(c, &sign, &parts.0) };
        proof {
            // the magnitudes and the sign survive each later step
            lemma_clears_frame(b.bits@, old(c), &c1, old(c).wires());
            lemma_clears_frame(a_abs.bits@, &c1, &c2, c1.wires());
            lemma_clears_frame(a_abs.bits@, &c2, &c3, c2.wires());
            lemma_clears_frame(b_abs.bits@, &c2, &c3, c2.wires());
            lemma_clears_frame(a.bits@, old(c), &c2, old(c).wires());
            lemma_clears_frame(b.bits@, old(c), &c2, old(c).wires());
            lemma_clears_frame(parts.0@, &c4, c, c4.wires());
            let ma = mag(a.ival(old(c)));
            let mb = mag(b.ival(old(c)));
            assert(word_val(a_abs.bits@, &c3) == ma);
            assert(word_val(b_abs.bits@, &c3) == mb);
            assert(sa.clear(&c2) == av[size - 1]);
            assert(sb.clear(&c2) == bv[size - 1]);
            lemma_int_range(av);
            lemma_int_range(bv);
            lemma_top_bit(av);
            lemma_top_bit(bv);
            assert(sign.clear(&c3) == ((a.ival(old(c)) < 0) != (b.ival(old(c)) < 0))) by {
                vstd::arithmetic::power2::lemma_pow2_pos((size - 1) as nat);
            }
            let qm: nat = if mb > 0 {
                ma / mb
            } else {
                (pow2(size as nat) - 1) as nat
            };
            assert(word_val(parts.0@, &c4) == qm);
            assert(sign.clear(&c4) == sign.clear(&c3));
            let rv = clears(r.bits@, c);
            vstd::arithmetic::power2::lemma_pow2_unfold(size as nat);
            vstd::arithmetic::power2::lemma_pow2_pos((size - 1) as nat);
            if b.ival(old(c)) != 0 {
                assert(mb > 0);
                vstd::arithmetic::div_mod::lemma_div_nonincreasing(ma as int, mb as int);
                assert(qm <= ma);
                assert(ma <= pow2((size - 1) as nat));
                if sign.clear(&c3) {
                    if qm == 0 {
                        assert(nat_of_bits(rv) == mod_pow2(pow2(size as nat), size as nat));
                        lemma_wrap(0, 1int, pow2(size as nat), size as nat);
                        assert(nat_of_bits(rv) == 0);
                        lemma_top_bit(rv);
                        assert(r.ival(c) == 0);
                    } else {
                        vstd::arithmetic::div_mod::lemma_small_mod(
                            (pow2(size as nat) - qm) as nat,
                            pow2(size as nat),
                        );
                        assert(nat_of_bits(rv) == pow2(size as nat) - qm);
                        lemma_top_bit(rv);
                        assert(nat_of_bits(rv) >= pow2((size - 1) as nat));
                        assert(r.ival(c) == -(qm as int));
                    }
                } else {
                    if qm < pow2((size - 1) as nat) {
                        assert(nat_of_bits(rv) == qm);
                        lemma_top_bit(rv);
                        assert(r.ival(c) == qm);
                    }
                }
            }
        }
        r
    }

    /// Signed remainder: the magnitude remainder, negated when the
    /// dividend is negative, so the result takes the dividend's sign.
    pub fn modulo(c: &mut Cluster, a: &Int, b: &Int) -> (r: Int)
        requires
            old(c).wf(),
            a.lives_in(old(c)),
            b.lives_in(old(c)),
            a.width() == b.width(),
            a.width() >= 1,
        ensures
            final(c).wf(),
            final(c).n() == old(c).n(),
            final(c).wires() >= old(c).wires(),
            final(c).rounds() == old(c).rounds(),
            r.width() == a.width(),
            r.lives_in(final(c)),
            r.uval(final(c)) == ({
                let rm = if mag(b.ival(old(c))) > 0 {
                    mag(a.ival(old(c))) % mag(b.ival(old(c)))
                } else {
                    mag(a.ival(old(c)))
                };
                if a.ival(old(c)) < 0 {
                    mod_pow2((pow2(a.width() as nat) - rm) as nat, a.width() as nat)
                } else {
                    rm
                }
            }),
            b.ival(old(c)) != 0 && a.ival(old(c)) < 0 ==> r.ival(final(c)) == -((mag(
                a.ival(old(c)),
            ) % mag(b.ival(old(c)))) as int),
            b.ival(old(c)) != 0 && a.ival(old(c)) >= 0 ==> r.ival(final(c)) == mag(
                a.ival(old(c)),
            ) % mag(b.ival(old(c))),
            forall|u: int| 0 <= u < old(c).wires() ==> final(c).clear(u) == old(c).clear(u),
    {
        let size = a.bits.len();
        let ghost av = clears(a.bits@, c);
        let ghost bv = clears(b.bits@, c);
        let a_abs = Int::abs(c, a);
        let ghost c1 = *c;
        let b_abs = Int::abs(c, b);
        let ghost c2 = *c;
        let sa = a.bits[size - 1];
        let parts = full_div(c, &a_abs.bits, &b_abs.bits);
        let ghost c4 = *c;
        let r = Int { bits: cond_neg(c, &sa, &parts.1) };
        proof {
            lemma_clears_frame(b.bits@, old(c), &c1, old(c).wires());
            lemma_clears_frame(a_abs.bits@, &c1, &c2, c1.wires());
            lemma_clears_frame(a.bits@, old(c), &c2, old(c).wires());
            lemma_clears_frame(b.bits@, old(c), &c2, old(c).wires());
            lemma_clears_frame(parts.1@, &c4, c, c4.wires());
            let ma = mag(a.ival(old(c)));
            let mb = mag(b.ival(old(c)));
            assert(word_val(a_abs.bits@, &c2) == ma);
            assert(word_val(b_abs.bits@, &c2) == mb);
            assert(sa.clear(&c2) == av[size - 1]);
            lemma_int_range(av);
            lemma_int_range(bv);
            lemma_top_bit(av);
            assert(sa.clear(&c2) == (a.ival(old(c)) < 0)) by {
                vstd::arithmetic::power2::lemma_pow2_pos((size - 1) as nat);
            }
            let rm: nat = if mb > 0 {
                ma % mb
            } else {
                ma
            };
            assert(word_val(parts.1@, &c4) == rm);
            assert(sa.clear(&c4) == sa.clear(&c2));
            let rv = clears(r.bits@, c);
            vstd::arithmetic::power2::lemma_pow2_unfold(size as nat);
            vstd::arithmetic::power2::lemma_pow2_pos((size - 1) as nat);
            if b.ival(old(c)) != 0 {
                assert(mb > 0);
                vstd::arithmetic::div_mod::lemma_mod_bound(ma as int, mb as int);
                assert(rm < mb);
                assert(mb <= pow2((size - 1) as nat));
                if a.ival(old(c)) < 0 {
                    if rm == 0 {
                        assert(nat_of_bits(rv) == mod_pow2(pow2(size as nat), size as nat));
                        lemma_wrap(0, 1int, pow2(size as nat), size as nat);
                        assert(nat_of_bits(rv) == 0);
                        lemma_top_bit(rv);
                        assert(r.ival(c) == 0);
                    } else {
                        vstd::arithmetic::div_mod::lemma_small_mod(
                            (pow2(size as nat) - rm) as nat,
                            pow2(size as nat),
                        );
                        assert(nat_of_bits(rv) == pow2(size as nat) - rm);
                        lemma_top_bit(rv);
                        assert(nat_of_bits(rv) >= pow2((size - 1) as nat));
                        assert(r.ival(c) == -(rm as int));
                    }
                } else {
                    assert(rm < pow2((size - 1) as nat));
                    assert(nat_of_bits(rv) == rm);
                    lemma_top_bit(rv);
                    assert(r.ival(c) == rm);
                }
            }
        }
        r
    }
    /// Bitwise choice: the guard's cleartext picks `a` when true, `b`
    /// when false.
    pub fn mux(c: &mut Cluster, guard: &Bool, a: &Int, b: &Int) -> (r: Int)
        requires
            old(c).wf(),
            guard.lives_in(old(c)),
            a.lives_in(old(c)),
            b.lives_in(old(c)),
            a.width() == b.width(),
        ensures
            final(c).wf(),
            final(c).n() == old(c).n(),
            final(c).wires() >= old(c).wires(),
            final(c).rounds() == old(c).rounds(),
            r.width() == a.width(),
            r.lives_in(final(c)),
            r.ival(final(c)) == if guard.clear(old(c)) {
                a.ival(old(c))
            } else {
                b.ival(old(c))
            },
            forall|u: int| 0 <= u < old(c).wires() ==> final(c).clear(u) == old(c).clear(u),
    {
        let r = Int { bits: mux_wires(c, guard, &a.bits, &b.bits) };
        proof {
            if guard.clear(old(c)) {
                assert(clears(r.bits@, c) == clears(a.bits@, old(c)));
            } else {
                assert(clears(r.bits@, c) == clears(b.bits@, old(c)));
            }
        }
        r
    }

    /// Equality of signed values.
    pub fn eq(c: &mut Cluster, a: &Int, b: &Int) -> (r: Bool)
        requires
            old(c).wf(),
            a.lives_in(old(c)),
            b.lives_in(old(c)),
            a.width() == b.width(),
            a.width() >= 1,
        ensures
            final(c).wf(),
            final(c).n() == old(c).n(),
            final(c).wires() >= old(c).wires(),
            final(c).rounds() == old(c).rounds(),
            r.lives_in(final(c)),
            r.clear(final(c)) == (a.ival(old(c)) == b.ival(old(c))),
            forall|u: int| 0 <= u < old(c).wires() ==> final(c).clear(u) == old(c).clear(u),
    {
        let r = eq_wires(c, &a.bits, &b.bits);
        proof {
            lemma_ival_matches_uval(clears(a.bits@, old(c)), clears(b.bits@, old(c)));
        }
        r
    }

    /// Whether `a` is at least `b`, as signed values: both operands are
    /// sign-extended by one bit, subtracted, and the difference's sign
    /// bit negated.
    pub fn gte(c: &mut Cluster, a: &Int, b: &Int) -> (r: Bool)
        requires
            old(c).wf(),
            a.lives_in(old(c)),
            b.lives_in(old(c)),
            a.width() == b.width(),
            a.width() >= 1,
        ensures
            final(c).wf(),
            final(c).n() == old(c).n(),
            final(c).wires() >= old(c).wires(),
            final(c).rounds() == old(c).rounds(),
            r.lives_in(final(c)),
            r.clear(final(c)) == (a.ival(old(c)) >= b.ival(old(c))),
            forall|u: int| 0 <= u < old(c).wires() ==> final(c).clear(u) == old(c).clear(u),
    {
        let ghost av = clears(a.bits@, c);
        let ghost bv = clears(b.bits@, c);
        let size = a.bits.len();
        let sa = a.bits[size - 1];
        let sb = b.bits[size - 1];
        let mut ea: Vec<Bool> = Vec::new();
        let mut eb: Vec<Bool> = Vec::new();
        let mut i: usize = 0;
        while i < size
            invariant
                i <= size,
                size == a.bits_view().len(),
                b.bits_view().len() == size,
                ea@ =~= a.bits_view().take(i as int),
                eb@ =~= b.bits_view().take(i as int),
            decreases size - i,
        {
            let ai = a.bits[i];
            let bi = b.bits[i];
            ea.push(ai);
            eb.push(bi);
            i = i + 1;
        }
        ea.push(sa);
        eb.push(sb);
        let ghost c1 = *c;
        let diff = full_sub(c, &ea, &eb);
        let ghost c2 = *c;
        let sign = diff[size];
        let r = Bool::not(c, &sign);
        proof {
            lemma_clears_frame(diff@, &c2, c, c2.wires());
            assert(a.bits_view().take(size as int) =~= a.bits_view());
            assert(b.bits_view().take(size as int) =~= b.bits_view());
            assert(clears(ea@, &c1) =~= av.push(av[size - 1]));
            assert(clears(eb@, &c1) =~= bv.push(bv[size - 1]));
            lemma_nat_of_bits_push(av, av[size - 1]);
            lemma_nat_of_bits_push(bv, bv[size - 1]);
            lemma_int_range(av);
            lemma_int_range(bv);
            lemma_top_bit(av);
            lemma_top_bit(bv);
            let aa = a.ival(old(c));
            let bb = b.ival(old(c));
            let k = (size + 1) as nat;
            let ta: int = if av[size - 1] {
                1
            } else {
                0
            };
            let tb: int = if bv[size - 1] {
                1
            } else {
                0
            };
            vstd::arithmetic::power2::lemma_pow2_unfold(k);
            vstd::arithmetic::power2::lemma_pow2_unfold(size as nat);
            let ean = nat_of_bits(clears(ea@, &c1));
            let ebn = nat_of_bits(clears(eb@, &c1));
            assert(ean == aa + ta * pow2(k)) by {
                if av[size - 1] {
                    assert(ta * pow2(k) == pow2(k)) by (nonlinear_arith)
                        requires
                            ta == 1,
                    ;
                } else {
                    assert(ta * pow2(k) == 0) by (nonlinear_arith)
                        requires
                            ta == 0,
                    ;
                }
            }
            assert(ebn == bb + tb * pow2(k)) by {
                if bv[size - 1] {
                    assert(tb * pow2(k) == pow2(k)) by (nonlinear_arith)
                        requires
                            tb == 1,
                    ;
                } else {
                    assert(tb * pow2(k) == 0) by (nonlinear_arith)
                        requires
                            tb == 0,
                    ;
                }
            }
            let dv = clears(diff@, c);
            let total = (ean + pow2(k) - ebn) as nat;
            assert(nat_of_bits(dv) == mod_pow2(total, k));
            let mult = 1 + ta - tb;
            assert(total == aa - bb + mult * pow2(k)) by (nonlinear_arith)
                requires
                    total == ean + pow2(k) - ebn,
                    ean == aa + ta * pow2(k),
                    ebn == bb + tb * pow2(k),
                    mult == 1 + ta - tb,
            ;
            if aa >= bb {
                assert(aa - bb < pow2(size as nat));
                lemma_wrap((aa - bb) as nat, mult, total, k);
                assert(nat_of_bits(dv) == aa - bb);
                lemma_top_bit(dv);
                assert(dv[size as int] == false);
            } else {
                assert(mult >= 1) by {
                    if av[size - 1] {
                    } else {
                        assert(aa >= 0);
                        assert(bb > aa);
                        assert(!bv[size - 1]);
                    }
                }
                assert(aa - bb + pow2(k) >= pow2(size as nat));
                assert(aa - bb + pow2(k) < pow2(k));
                lemma_wrap((aa - bb + pow2(k)) as nat, mult - 1, total, k);
                assert(nat_of_bits(dv) == aa - bb + pow2(k));
                lemma_top_bit(dv);
                assert(dv[size as int] == true);
            }
            assert(sign.clear(&c2) == dv[size as int]);
        }
        r
    }

    /// Whether `a` is below `b`, as signed values.
    pub fn lt(c: &mut Cluster, a: &Int, b: &Int) -> (r: Bool)
        requires
            old(c).wf(),
            a.lives_in(old(c)),
            b.lives_in(old(c)),
            a.width() == b.width(),
            a.width() >= 1,
        ensures
            final(c).wf(),
            final(c).n() == old(c).n(),
            final(c).wires() >= old(c).wires(),
            final(c).rounds() == old(c).rounds(),
            r.lives_in(final(c)),
            r.clear(final(c)) == (a.ival(old(c)) < b.ival(old(c))),
            forall|u: int| 0 <= u < old(c).wires() ==> final(c).clear(u) == old(c).clear(u),
    {
        let ge = Int::gte(c, a, b);
        Bool::not(c, &ge)
    }

    /// Whether `a` is at most `b`, as signed values.
    pub fn lte(c: &mut Cluster, a: &Int, b: &Int) -> (r: Bool)
        requires
            old(c).wf(),
            a.lives_in(old(c)),
            b.lives_in(old(c)),
            a.width() == b.width(),
            a.width() >= 1,
        ensures
            final(c).wf(),
            final(c).n() == old(c).n(),
            final(c).wires() >= old(c).wires(),
            final(c).rounds() == old(c).rounds(),
            r.lives_in(final(c)),
            r.clear(final(c)) == (a.ival(old(c)) <= b.ival(old(c))),
            forall|u: int| 0 <= u < old(c).wires() ==> final(c).clear(u) == old(c).clear(u),
    {
        Int::gte(c, b, a)
    }

    /// Whether `a` exceeds `b`, as signed values.
    pub fn gt(c: &mut Cluster, a: &Int, b: &Int) -> (r: Bool)
        requires
            old(c).wf(),
            a.lives_in(old(c)),
            b.lives_in(old(c)),
            a.width() == b.width(),
            a.width() >= 1,
        ensures
            final(c).wf(),
            final(c).n() == old(c).n(),
            final(c).wires() >= old(c).wires(),
            final(c).rounds() == old(c).rounds(),
            r.lives_in(final(c)),
            r.clear(final(c)) == (a.ival(old(c)) > b.ival(old(c))),
            forall|u: int| 0 <= u < old(c).wires() ==> final(c).clear(u) == old(c).clear(u),
    {
        let le = Int::lte(c, a, b);
        Bool::not(c, &le)
    }

    /// The cleartext as little-endian two's-complement bytes, forcing
    /// rounds as needed.
    pub fn get(c: &mut Cluster, a: &Int) -> (r: Vec<u8>)
        requires
            old(c).wf(),
            a.lives_in(old(c)),
            a.width() % 8 == 0,
        ensures
            final(c).wf(),
            final(c).n() == old(c).n(),
            final(c).wires() == old(c).wires(),
            r@.len() == a.width() / 8,
            nat_of_bytes(r@) == a.uval(old(c)),
            forall|u: int| 0 <= u < old(c).wires() ==> final(c).clear(u) == old(c).clear(u),
    {
        let bools = get_wires(c, &a.bits);
        crate::bits::from_bits(bools.as_slice())
    }
}

/// Equal-width bit strings name one signed value exactly when they name
/// one unsigned value.
proof fn lemma_ival_matches_uval(s: Seq<bool>, t: Seq<bool>)
    requires
        s.len() == t.len(),
        s.len() >= 1,
    ensures
        (nat_of_bits(s) == nat_of_bits(t)) == (int_of_bits(s) == int_of_bits(t)),
{
    lemma_top_bit(s);
    lemma_top_bit(t);
    lemma_int_range(s);
    lemma_int_range(t);
}

/// Bitwise XOR over two equal-length wire vectors.
pub fn xor_wires(c: &mut Cluster, a: &Vec<Bool>, b: &Vec<Bool>) -> (r: Vec<Bool>)
    requires
        old(c).wf(),
        lives_below(a@, old(c).wires()),
        lives_below(b@, old(c).wires()),
        a@.len() == b@.len(),
    ensures
        final(c).wf(),
        final(c).n() == old(c).n(),
        final(c).wires() >= old(c).wires(),
        final(c).rounds() == old(c).rounds(),
        r@.len() == a@.len(),
        lives_below(r@, final(c).wires()),
        clears(r@, final(c)) =~= xor_bits(clears(a@, old(c)), clears(b@, old(c))),
        forall|u: int| 0 <= u < old(c).wires() ==> final(c).clear(u) == old(c).clear(u),
{
    let ghost w0 = c.wires();
    let ghost av = clears(a@, c);
    let ghost bv = clears(b@, c);
    let size = a.len();
    let mut dest: Vec<Bool> = Vec::new();
    let mut i: usize = 0;
    while i < size
        invariant
            c.wf(),
            c.n() == old(c).n(),
            c.rounds() == old(c).rounds(),
            c.wires() >= w0,
            w0 == old(c).wires(),
            i <= size,
            size == a@.len(),
            b@.len() == size,
            av.len() == size,
            bv.len() == size,
            lives_below(a@, w0 as int),
            lives_below(b@, w0 as int),
            clears(a@, c) == av,
            clears(b@, c) == bv,
            dest@.len() == i,
            lives_below(dest@, c.wires()),
            forall|u: int| 0 <= u < w0 ==> c.clear(u) == old(c).clear(u),
            clears(dest@, c) =~= xor_bits(av, bv).take(i as int),
        decreases size - i,
    {
        let ai = a[i];
        let bi = b[i];
        let ghost cpre = *c;
        let di = Bool::xor(c, &ai, &bi);
        proof {
            lemma_clears_frame(dest@, &cpre, c, cpre.wires());
            assert(clears(dest@.push(di), c) =~= clears(dest@, c).push(di.clear(c)));
            assert(clears(dest@, c).push(di.clear(c)) =~= xor_bits(av, bv).take(i as int + 1));
        }
        dest.push(di);
        i = i + 1;
    }
    proof {
        assert(xor_bits(av, bv).take(size as int) =~= xor_bits(av, bv));
    }
    dest
}

} // verus!
