//! Bit-level arithmetic circuits over boolean secure values: the
//! ripple-carry adder and subtractor that the integer types are built
//! from. Values are read least-significant wire first.

use vstd::prelude::*;

verus! {

use crate::cluster::Cluster;
use crate::boolean::{Bool, lives_below, clears, lemma_clears_frame};
use crate::bits::{nat_of_bits, lemma_nat_of_bits_push, lemma_nat_of_bits_bound};
use vstd::arithmetic::power2::{pow2, lemma_pow2_unfold, lemma2_to64};

/// The number a vector of wires carries in a session, least-significant
/// wire first.
pub open spec fn word_val(v: Seq<Bool>, c: &Cluster) -> nat {
    nat_of_bits(clears(v, c))
}

/// A sum wrapped to `k` bits.
pub open spec fn mod_pow2(x: nat, k: nat) -> nat {
    x % pow2(k)
}

/// A wrapped value stays put, and adding any multiple of the modulus
/// vanishes.
pub proof fn lemma_wrap(d: nat, mult: int, total: nat, k: nat)
    requires
        d < pow2(k),
        total == d + mult * pow2(k),
    ensures
        mod_pow2(total, k) == d,
{
    vstd::arithmetic::power2::lemma_pow2_pos(k);
    vstd::arithmetic::div_mod::lemma_mod_multiples_vanish(mult, d as int, pow2(k) as int);
    vstd::arithmetic::div_mod::lemma_small_mod(d, pow2(k));
}

/// A bit string's value splits at any position.
pub proof fn lemma_val_split(s: Seq<bool>, k: int)
    requires
        0 <= k <= s.len(),
    ensures
        nat_of_bits(s) == nat_of_bits(s.take(k)) + pow2(k as nat) * nat_of_bits(s.skip(k)),
{
    assert(s =~= s.take(k) + s.skip(k));
    crate::bits::lemma_nat_of_bits_concat(s.take(k), s.skip(k));
}

/// The low bits carry the value reduced to their width.
pub proof fn lemma_take_mod(s: Seq<bool>, k: int)
    requires
        0 <= k <= s.len(),
    ensures
        nat_of_bits(s.take(k)) == nat_of_bits(s) % pow2(k as nat),
{
    lemma_val_split(s, k);
    lemma_nat_of_bits_bound(s.take(k));
    vstd::arithmetic::mul::lemma_mul_is_commutative(
        pow2(k as nat) as int,
        nat_of_bits(s.skip(k)) as int,
    );
    lemma_wrap(nat_of_bits(s.take(k)), nat_of_bits(s.skip(k)) as int, nat_of_bits(s), k as nat);
}

/// The ripple-carry adder: one full-adder cell per bit, the final carry
/// dropped, so the result is the sum wrapped to the operand width.
/// O(width) AND gates.
pub fn full_add(c: &mut Cluster, a: &Vec<Bool>, b: &Vec<Bool>) -> (r: Vec<Bool>)
    requires
        old(c).wf(),
        lives_below(a@, old(c).wires()),
        lives_below(b@, old(c).wires()),
        a@.len() == b@.len(),
    ensures
        final(c).wf(),
        final(c).n() == old(c).n(),
        final(c).wires() >= old(c).wires(),
        final(c).rounds() == old(c).rounds(),
        r@.len() == a@.len(),
        lives_below(r@, final(c).wires()),
        word_val(r@, final(c)) == mod_pow2(
            word_val(a@, old(c)) + word_val(b@, old(c)),
            a@.len(),
        ),
        forall|u: int| 0 <= u < old(c).wires() ==> final(c).clear(u) == old(c).clear(u),
    {
    let size = a.len();
    let ghost w0 = c.wires();
    let ghost av = clears(a@, c);
    let ghost bv = clears(b@, c);
    let mut dest: Vec<Bool> = Vec::new();
    if size == 0 {
        proof {
            lemma2_to64();
            assert(clears(dest@, c) =~= Seq::<bool>::empty());
            assert(av =~= Seq::<bool>::empty());
            assert(bv =~= Seq::<bool>::empty());
            assert(mod_pow2(0, 0) == 0) by {
                vstd::arithmetic::div_mod::lemma_small_mod(0, 1);
            }
        }
        return dest;
    }
    let mut carry = Bool::constant(c, false);
    let mut i: usize = 0;
    proof {
        assert(av.take(0) =~= Seq::<bool>::empty());
        assert(bv.take(0) =~= Seq::<bool>::empty());
        assert(clears(dest@, c) =~= Seq::<bool>::empty());
        lemma_clears_frame(a@, old(c), c, w0 as int);
        lemma_clears_frame(b@, old(c), c, w0 as int);
    }
    while i < size - 1
        invariant
            c.wf(),
            c.n() == old(c).n(),
            c.rounds() == old(c).rounds(),
            c.wires() >= w0,
            w0 == old(c).wires(),
            i <= size - 1,
            size == a@.len(),
            b@.len() == size,
            size >= 1,
            av.len() == size,
            bv.len() == size,
            lives_below(a@, w0 as int),
            lives_below(b@, w0 as int),
            clears(a@, c) == av,
            clears(b@, c) == bv,
            dest@.len() == i,
            lives_below(dest@, c.wires()),
            carry.lives_in(c),
            forall|u: int| 0 <= u < w0 ==> c.clear(u) == old(c).clear(u),
            nat_of_bits(clears(dest@, c)) + (if carry.clear(c) {
                pow2(i as nat)
            } else {
                0nat
            }) == nat_of_bits(av.take(i as int)) + nat_of_bits(bv.take(i as int)),
        decreases size - 1 - i,
    {
        let ai = a[i];
        let bi = b[i];
        let ghost cpre = *c;
        let ghost dsum = nat_of_bits(clears(dest@, c));
        let axc = Bool::xor(c, &ai, &carry);
        let bxc = Bool::xor(c, &bi, &carry);
        let di = Bool::xor(c, &ai, &bxc);
        let t = Bool::and(c, &axc, &bxc);
        let carry2 = Bool::xor(c, &carry, &t);
        proof {
            let an: int = if av[i as int] {
                1
            } else {
                0
            };
            let bn: int = if bv[i as int] {
                1
            } else {
                0
            };
            let cin: int = if carry.clear(&cpre) {
                1
            } else {
                0
            };
            let dn: int = if di.clear(c) {
                1
            } else {
                0
            };
            let coutn: int = if carry2.clear(c) {
                1
            } else {
                0
            };
            assert(ai.clear(&cpre) == av[i as int]);
            assert(bi.clear(&cpre) == bv[i as int]);
            assert(di.clear(c) == (av[i as int] != (bv[i as int] != carry.clear(&cpre))));
            assert(carry2.clear(c) == (carry.clear(&cpre) != ((av[i as int]
                != carry.clear(&cpre)) && (bv[i as int] != carry.clear(&cpre)))));
            assert(an + bn + cin == dn + 2 * coutn);
            // the framed cleartexts of what was already built
            lemma_clears_frame(dest@, &cpre, c, cpre.wires());
            lemma_clears_frame(a@, &cpre, c, w0 as int);
            lemma_clears_frame(b@, &cpre, c, w0 as int);
            assert(clears(dest@.push(di), c) =~= clears(dest@, c).push(di.clear(c)));
            lemma_nat_of_bits_push(clears(dest@, c), di.clear(c));
            assert(av.take(i as int + 1) =~= av.take(i as int).push(av[i as int]));
            assert(bv.take(i as int + 1) =~= bv.take(i as int).push(bv[i as int]));
            lemma_nat_of_bits_push(av.take(i as int), av[i as int]);
            lemma_nat_of_bits_push(bv.take(i as int), bv[i as int]);
            lemma_pow2_unfold((i + 1) as nat);
            let p = pow2(i as nat) as int;
            assert(dsum + dn * p + coutn * (2 * p) == nat_of_bits(av.take(i as int)) + an * p
                + nat_of_bits(bv.take(i as int)) + bn * p) by (nonlinear_arith)
                requires
                    dsum + cin * p == nat_of_bits(av.take(i as int)) + nat_of_bits(
                        bv.take(i as int),
                    ),
                    an + bn + cin == dn + 2 * coutn,
            ;
        }
        dest.push(di);
        carry = carry2;
        i = i + 1;
    }
    // the top bit: the carry out is dropped, wrapping the sum
    let al = a[size - 1];
    let bl = b[size - 1];
    let ghost cpre = *c;
    let ghost dsum = nat_of_bits(clears(dest@, c));
    let axb = Bool::xor(c, &al, &bl);
    let dl = Bool::xor(c, &carry, &axb);
    proof {
        let an: int = if av[size - 1] {
            1
        } else {
            0
        };
        let bn: int = if bv[size - 1] {
            1
        } else {
            0
        };
        let cin: int = if carry.clear(&cpre) {
            1
        } else {
            0
        };
        let dn: int = if dl.clear(c) {
            1
        } else {
            0
        };
        let coutn: int = an + bn + cin - dn;
        assert(al.clear(&cpre) == av[size - 1]);
        assert(bl.clear(&cpre) == bv[size - 1]);
        assert(dl.clear(c) == (carry.clear(&cpre) != (av[size - 1] != bv[size - 1])));
        assert(coutn == 0 || coutn == 2);
        lemma_clears_frame(dest@, &cpre, c, cpre.wires());
        lemma_clears_frame(a@, &cpre, c, w0 as int);
        lemma_clears_frame(b@, &cpre, c, w0 as int);
        assert(clears(dest@.push(dl), c) =~= clears(dest@, c).push(dl.clear(c)));
        lemma_nat_of_bits_push(clears(dest@, c), dl.clear(c));
        assert(av.take(size - 1).push(av[size - 1]) =~= av);
        assert(bv.take(size - 1).push(bv[size - 1]) =~= bv);
        lemma_nat_of_bits_push(av.take(size - 1), av[size - 1]);
        lemma_nat_of_bits_push(bv.take(size - 1), bv[size - 1]);
        lemma_pow2_unfold(size as nat);
        let p = pow2((size - 1) as nat) as int;
        assert(dsum + cin * p == nat_of_bits(av.take(size - 1)) + nat_of_bits(bv.take(size - 1)))
            by {
            if carry.clear(&cpre) {
                assert(cin * p == p) by (nonlinear_arith)
                    requires
                        cin == 1,
                ;
            } else {
                assert(cin * p == 0) by (nonlinear_arith)
                    requires
                        cin == 0,
                ;
            }
        }
        assert(dsum + dn * p + (coutn / 2) * (2 * p) == nat_of_bits(av) + nat_of_bits(bv))
            by (nonlinear_arith)
            requires
                dsum + cin * p == nat_of_bits(av.take(size - 1)) + nat_of_bits(
                    bv.take(size - 1),
                ),
                nat_of_bits(av) == nat_of_bits(av.take(size - 1)) + an * p,
                nat_of_bits(bv) == nat_of_bits(bv.take(size - 1)) + bn * p,
                an + bn + cin == dn + 2 * (coutn / 2),
                coutn == 0 || coutn == 2,
        ;
    }
    dest.push(dl);
    proof {
        let dv = clears(dest@, c);
        lemma_nat_of_bits_bound(dv);
        let carry_out: nat = ((nat_of_bits(av) + nat_of_bits(bv)) - nat_of_bits(dv)) as nat
            / pow2(size as nat);
        assert(nat_of_bits(av) + nat_of_bits(bv) == nat_of_bits(dv) + carry_out * pow2(
            size as nat,
        )) by (nonlinear_arith)
            requires
                nat_of_bits(av) + nat_of_bits(bv) - nat_of_bits(dv) == 0 || nat_of_bits(av)
                    + nat_of_bits(bv) - nat_of_bits(dv) == pow2(size as nat),
                carry_out == ((nat_of_bits(av) + nat_of_bits(bv)) - nat_of_bits(dv)) as nat
                    / pow2(size as nat),
                pow2(size as nat) > 0,
        ;
        lemma_wrap(
            nat_of_bits(dv),
            carry_out as int,
            nat_of_bits(av) + nat_of_bits(bv),
            size as nat,
        );
    }
    dest
}

/// The schoolbook shift-and-add multiplier: one AND-gate row per bit of
/// the multiplier, each folded into the accumulator with the
/// ripple-carry adder; the product is wrapped to the operand width.
/// O(width squared) AND gates.
#[verifier::rlimit(60)]
pub fn full_mul(c: &mut Cluster, a: &Vec<Bool>, b: &Vec<Bool>) -> (r: Vec<Bool>)
    requires
        old(c).wf(),
        lives_below(a@, old(c).wires()),
        lives_below(b@, old(c).wires()),
        a@.len() == b@.len(),
    ensures
        final(c).wf(),
        final(c).n() == old(c).n(),
        final(c).wires() >= old(c).wires(),
        final(c).rounds() == old(c).rounds(),
        r@.len() == a@.len(),
        lives_below(r@, final(c).wires()),
        word_val(r@, final(c)) == mod_pow2(word_val(a@, old(c)) * word_val(b@, old(c)), a@.len()),
        forall|u: int| 0 <= u < old(c).wires() ==> final(c).clear(u) == old(c).clear(u),
{
    let size = a.len();
    let ghost w0 = c.wires();
    let ghost av = clears(a@, c);
    let ghost bv = clears(b@, c);
    // the accumulator starts at zero
    let mut dest: Vec<Bool> = Vec::new();
    let mut z: usize = 0;
    while z < size
        invariant
            c.wf(),
            c.n() == old(c).n(),
            c.rounds() == old(c).rounds(),
            c.wires() >= w0,
            w0 == old(c).wires(),
            z <= size,
            dest@.len() == z,
            lives_below(dest@, c.wires()),
            forall|u: int| 0 <= u < w0 ==> c.clear(u) == old(c).clear(u),
            forall|j: int| 0 <= j < z ==> clears(dest@, c)[j] == false,
        decreases size - z,
    {
        let ghost cpre = *c;
        let f = Bool::constant(c, false);
        proof {
            lemma_clears_frame(dest@, &cpre, c, cpre.wires());
            assert(clears(dest@.push(f), c) =~= clears(dest@, c).push(f.clear(c)));
        }
        dest.push(f);
        z = z + 1;
    }
    proof {
        lemma_clears_frame(a@, old(c), c, w0 as int);
        lemma_clears_frame(b@, old(c), c, w0 as int);
        assert(clears(dest@, c) =~= crate::bitseq::zero_bits(size as nat));
        crate::bitseq::lemma_zero_bits_value(size as nat);
        assert(bv.take(0) =~= Seq::<bool>::empty());
        assert(nat_of_bits(Seq::<bool>::empty()) == 0);
        vstd::arithmetic::power2::lemma_pow2_pos(size as nat);
        vstd::arithmetic::div_mod::lemma_small_mod(0, pow2(size as nat));
    }
    let mut i: usize = 0;
    while i < size
        invariant
            c.wf(),
            c.n() == old(c).n(),
            c.rounds() == old(c).rounds(),
            c.wires() >= w0,
            w0 == old(c).wires(),
            i <= size,
            size == a@.len(),
            b@.len() == size,
            av.len() == size,
            bv.len() == size,
            lives_below(a@, w0 as int),
            lives_below(b@, w0 as int),
            clears(a@, c) == av,
            clears(b@, c) == bv,
            dest@.len() == size,
            lives_below(dest@, c.wires()),
            forall|u: int| 0 <= u < w0 ==> c.clear(u) == old(c).clear(u),
            word_val(dest@, c) == mod_pow2(
                nat_of_bits(av) * nat_of_bits(bv.take(i as int)),
                size as nat,
            ),
        decreases size - i,
    {
        let m = size - i;
        let bi = b[i];
        let ghost c0 = *c;
        let ghost dv0 = clears(dest@, c);
        // one partial-product row
        let mut temp: Vec<Bool> = Vec::new();
        let mut j: usize = 0;
        while j < m
            invariant
                c.wf(),
                c.n() == c0.n(),
                c.rounds() == c0.rounds(),
                c.wires() >= c0.wires(),
                j <= m,
                m <= size,
                size == a@.len(),
                av.len() == size,
                lives_below(a@, c0.wires()),
                bi.lives_in(&c0),
                clears(a@, c) == av,
                bi.clear(c) == bi.clear(&c0),
                temp@.len() == j,
                lives_below(temp@, c.wires()),
                forall|u: int| 0 <= u < c0.wires() ==> c.clear(u) == c0.clear(u),
                bi.clear(&c0) ==> clears(temp@, c) =~= av.take(j as int),
                !bi.clear(&c0) ==> clears(temp@, c) =~= crate::bitseq::zero_bits(j as nat),
            decreases m - j,
        {
            let aj = a[j];
            let ghost cpre = *c;
            let tj = Bool::and(c, &aj, &bi);
            proof {
                lemma_clears_frame(temp@, &cpre, c, cpre.wires());
                assert(clears(temp@.push(tj), c) =~= clears(temp@, c).push(tj.clear(c)));
                assert(tj.clear(c) == (av[j as int] && bi.clear(&c0)));
                if bi.clear(&c0) {
                    assert(clears(temp@, c).push(tj.clear(c)) =~= av.take(j as int + 1));
                } else {
                    assert(clears(temp@, c).push(tj.clear(c)) =~= crate::bitseq::zero_bits(
                        (j + 1) as nat,
                    ));
                }
            }
            temp.push(tj);
            j = j + 1;
        }
        // the accumulator's suffix from position i up
        let mut suffix: Vec<Bool> = Vec::new();
        let mut j: usize = i;
        while j < size
            invariant
                i <= j <= size,
                dest@.len() == size,
                suffix@ =~= dest@.subrange(i as int, j as int),
            decreases size - j,
        {
            let dj = dest[j];
            suffix.push(dj);
            j = j + 1;
        }
        let ghost c1 = *c;
        let sum = full_add(c, &suffix, &temp);
        // fold the row back into the accumulator
        let mut nd: Vec<Bool> = Vec::new();
        let mut j: usize = 0;
        while j < i
            invariant
                j <= i,
                i <= size,
                dest@.len() == size,
                nd@ =~= dest@.take(j as int),
            decreases i - j,
        {
            let dj = dest[j];
            nd.push(dj);
            j = j + 1;
        }
        let mut j: usize = 0;
        while j < m
            invariant
                j <= m,
                sum@.len() == m,
                i + m == size,
                dest@.len() == size,
                nd@ =~= dest@.take(i as int) + sum@.take(j as int),
            decreases m - j,
        {
            proof {
                assert((dest@.take(i as int) + sum@.take(j as int)).push(sum@[j as int]) =~= dest@.take(
                    i as int,
                ) + sum@.take(j as int + 1));
            }
            let sj = sum[j];
            nd.push(sj);
            j = j + 1;
        }
        proof {
            let a2 = *c;
            assert(sum@.take(m as int) =~= sum@);
            // cleartext bookkeeping for the row, the suffix, and the sum
            lemma_clears_frame(dest@, &c0, &c1, c0.wires());
            lemma_clears_frame(dest@, &c1, &a2, c1.wires());
            lemma_clears_frame(a@, &c0, &a2, w0 as int);
            lemma_clears_frame(temp@, &c1, &a2, c1.wires());
            assert(clears(suffix@, &c1) =~= clears(dest@, &c1).skip(i as int));
            assert(clears(dest@, &c1) =~= dv0);
            let sfv = dv0.skip(i as int);
            let tv = clears(temp@, &c1);
            let p2m = pow2(m as nat);
            let p2i = pow2(i as nat);
            let p2s = pow2(size as nat);
            let sumv = clears(sum@, &a2);
            assert(nat_of_bits(sumv) == (nat_of_bits(sfv) + nat_of_bits(tv)) % p2m);
            // the row is the multiplicand's low bits, or zero
            if bi.clear(&c0) {
                lemma_take_mod(av, m as int);
            } else {
                crate::bitseq::lemma_zero_bits_value(m as nat);
            }
            // the new accumulator value
            assert(clears(nd@, &a2) =~= clears(dest@.take(i as int), &a2) + sumv);
            assert(clears(dest@.take(i as int), &a2) =~= dv0.take(i as int));
            crate::bits::lemma_nat_of_bits_concat(dv0.take(i as int), sumv);
            lemma_val_split(dv0, i as int);
            // shift the reduction out to the full width
            vstd::arithmetic::power2::lemma_pow2_adds(i as nat, m as nat);
            vstd::arithmetic::power2::lemma_pow2_pos(m as nat);
            vstd::arithmetic::power2::lemma_pow2_pos(i as nat);
            vstd::arithmetic::power2::lemma_pow2_pos(size as nat);
            let s_val = nat_of_bits(sfv) as int;
            let t_val = nat_of_bits(tv) as int;
            let pre = nat_of_bits(dv0.take(i as int)) as int;
            let am = nat_of_bits(av) as int;
            let bt = nat_of_bits(bv.take(i as int)) as int;
            let q = (s_val + t_val) / (p2m as int);
            vstd::arithmetic::div_mod::lemma_fundamental_div_mod(s_val + t_val, p2m as int);
            assert(nat_of_bits(clears(nd@, &a2)) as int == pre + (p2i as int) * ((s_val + t_val)
                - (p2m as int) * q));
            assert(pre + (p2i as int) * ((s_val + t_val) - (p2m as int) * q) == pre + (
            p2i as int) * s_val + (p2i as int) * t_val - (p2s as int) * q) by (nonlinear_arith)
                requires
                    (p2s as int) == (p2i as int) * (p2m as int),
            ;
            // the row contributes the shifted multiplicand times the bit
            let bn: int = if bi.clear(&c0) {
                1
            } else {
                0
            };
            let qa = am / (p2m as int);
            vstd::arithmetic::div_mod::lemma_fundamental_div_mod(am, p2m as int);
            assert(t_val == bn * (am - (p2m as int) * qa));
            assert((p2i as int) * t_val == (p2i as int) * bn * am - (p2s as int) * (bn * qa))
                by (nonlinear_arith)
                requires
                    t_val == bn * (am - (p2m as int) * qa),
                    (p2s as int) == (p2i as int) * (p2m as int),
            ;
            // collapse everything modulo the full width
            let old_val = word_val(dest@, &c0) as int;
            assert(old_val == pre + (p2i as int) * s_val);
            vstd::arithmetic::mul::lemma_mul_is_distributive_add(p2s as int, q, bn * qa);
            assert(nat_of_bits(clears(nd@, &a2)) as int == old_val + (p2i as int) * bn * am - (
            p2s as int) * (q + bn * qa));
            assert(old_val == (am * bt) % (p2s as int));
            let nv = nat_of_bits(clears(nd@, &a2)) as int;
            lemma_nat_of_bits_bound(clears(nd@, &a2));
            assert(clears(nd@, &a2).len() == size);
            vstd::arithmetic::div_mod::lemma_mod_multiples_vanish(q + bn * qa, nv, p2s as int);
            vstd::arithmetic::div_mod::lemma_small_mod(nv as nat, p2s);
            assert(nv % (p2s as int) == (old_val + (p2i as int) * bn * am) % (p2s as int));
            vstd::arithmetic::div_mod::lemma_add_mod_noop(am * bt, (p2i as int) * bn * am, p2s as int);
            vstd::arithmetic::div_mod::lemma_mod_twice(am * bt, p2s as int);
            lemma_nat_of_bits_bound(dv0);
            vstd::arithmetic::div_mod::lemma_small_mod(old_val as nat, p2s);
            vstd::arithmetic::div_mod::lemma_add_mod_noop(
                old_val,
                (p2i as int) * bn * am,
                p2s as int,
            );
            assert((old_val + (p2i as int) * bn * am) % (p2s as int) == ((am * bt) % (p2s as int)
                + ((p2i as int) * bn * am) % (p2s as int)) % (p2s as int));
            assert((am * bt + (p2i as int) * bn * am) % (p2s as int) == ((am * bt) % (p2s as int)
                + ((p2i as int) * bn * am) % (p2s as int)) % (p2s as int));
            // and fold the new multiplier bit in
            assert(bv.take(i as int + 1) =~= bv.take(i as int).push(bv[i as int]));
            lemma_nat_of_bits_push(bv.take(i as int), bv[i as int]);
            assert(bi.clear(&c0) == bv[i as int]);
            assert(am * bt + (p2i as int) * bn * am == am * (bt + bn * (p2i as int)))
                by (nonlinear_arith);
            assert(bn * (p2i as int) == (if bv[i as int] {
                p2i as int
            } else {
                0int
            })) by {
                if bv[i as int] {
                    assert(bn == 1);
                    assert(1 * (p2i as int) == p2i as int) by (nonlinear_arith);
                } else {
                    assert(bn == 0);
                    assert(0 * (p2i as int) == 0) by (nonlinear_arith);
                }
            }
            assert(nat_of_bits(bv.take(i as int + 1)) == bt + bn * (p2i as int));
            assert(nv == (am * nat_of_bits(bv.take(i as int + 1))) % (p2s as int));
        }
        dest = nd;
        i = i + 1;
    }
    proof {
        assert(bv.take(size as int) =~= bv);
    }
    dest
}

/// The ripple-borrow subtractor with an explicit borrow out: the result
/// and borrow together carry the exact difference, and the borrow is set
/// exactly when the subtrahend exceeds the minuend.
pub fn full_sub_borrow(c: &mut Cluster, a: &Vec<Bool>, b: &Vec<Bool>) -> (r: (Vec<Bool>, Bool))
    requires
        old(c).wf(),
        lives_below(a@, old(c).wires()),
        lives_below(b@, old(c).wires()),
        a@.len() == b@.len(),
    ensures
        final(c).wf(),
        final(c).n() == old(c).n(),
        final(c).wires() >= old(c).wires(),
        final(c).rounds() == old(c).rounds(),
        r.0@.len() == a@.len(),
        lives_below(r.0@, final(c).wires()),
        r.1.lives_in(final(c)),
        word_val(r.0@, final(c)) as int == word_val(a@, old(c)) - word_val(b@, old(c)) + (
        if r.1.clear(final(c)) {
            pow2(a@.len()) as int
        } else {
            0
        }),
        r.1.clear(final(c)) == (word_val(a@, old(c)) < word_val(b@, old(c))),
        forall|u: int| 0 <= u < old(c).wires() ==> final(c).clear(u) == old(c).clear(u),
{
    let size = a.len();
    let ghost w0 = c.wires();
    let ghost av = clears(a@, c);
    let ghost bv = clears(b@, c);
    let mut dest: Vec<Bool> = Vec::new();
    let mut borrow = Bool::constant(c, false);
    let mut i: usize = 0;
    proof {
        assert(av.take(0) =~= Seq::<bool>::empty());
        assert(bv.take(0) =~= Seq::<bool>::empty());
        assert(clears(dest@, c) =~= Seq::<bool>::empty());
        lemma_clears_frame(a@, old(c), c, w0 as int);
        lemma_clears_frame(b@, old(c), c, w0 as int);
        lemma2_to64();
    }
    while i < size
        invariant
            c.wf(),
            c.n() == old(c).n(),
            c.rounds() == old(c).rounds(),
            c.wires() >= w0,
            w0 == old(c).wires(),
            i <= size,
            size == a@.len(),
            b@.len() == size,
            av.len() == size,
            bv.len() == size,
            lives_below(a@, w0 as int),
            lives_below(b@, w0 as int),
            clears(a@, c) == av,
            clears(b@, c) == bv,
            dest@.len() == i,
            lives_below(dest@, c.wires()),
            borrow.lives_in(c),
            forall|u: int| 0 <= u < w0 ==> c.clear(u) == old(c).clear(u),
            nat_of_bits(clears(dest@, c)) as int - (if borrow.clear(c) {
                pow2(i as nat) as int
            } else {
                0
            }) == nat_of_bits(av.take(i as int)) - nat_of_bits(bv.take(i as int)),
        decreases size - i,
    {
        let ai = a[i];
        let bi = b[i];
        let ghost cpre = *c;
        let ghost dsum = nat_of_bits(clears(dest@, c));
        let bxa = Bool::xor(c, &ai, &bi);
        let bxc = Bool::xor(c, &borrow, &bi);
        let di = Bool::xor(c, &bxa, &borrow);
        let t = Bool::and(c, &bxa, &bxc);
        let borrow2 = Bool::xor(c, &borrow, &t);
        proof {
            let an: int = if av[i as int] {
                1
            } else {
                0
            };
            let bn: int = if bv[i as int] {
                1
            } else {
                0
            };
            let cin: int = if borrow.clear(&cpre) {
                1
            } else {
                0
            };
            let dn: int = if di.clear(c) {
                1
            } else {
                0
            };
            let coutn: int = if borrow2.clear(c) {
                1
            } else {
                0
            };
            assert(ai.clear(&cpre) == av[i as int]);
            assert(bi.clear(&cpre) == bv[i as int]);
            assert(di.clear(c) == ((av[i as int] != bv[i as int]) != borrow.clear(&cpre)));
            assert(borrow2.clear(c) == (borrow.clear(&cpre) != ((av[i as int] != bv[i as int])
                && (borrow.clear(&cpre) != bv[i as int]))));
            assert(an - bn - cin == dn - 2 * coutn);
            lemma_clears_frame(dest@, &cpre, c, cpre.wires());
            lemma_clears_frame(a@, &cpre, c, w0 as int);
            lemma_clears_frame(b@, &cpre, c, w0 as int);
            assert(clears(dest@.push(di), c) =~= clears(dest@, c).push(di.clear(c)));
            lemma_nat_of_bits_push(clears(dest@, c), di.clear(c));
            assert(av.take(i as int + 1) =~= av.take(i as int).push(av[i as int]));
            assert(bv.take(i as int + 1) =~= bv.take(i as int).push(bv[i as int]));
            lemma_nat_of_bits_push(av.take(i as int), av[i as int]);
            lemma_nat_of_bits_push(bv.take(i as int), bv[i as int]);
            lemma_pow2_unfold((i + 1) as nat);
            let p = pow2(i as nat) as int;
            assert(dsum + dn * p - coutn * (2 * p) == nat_of_bits(av.take(i as int)) + an * p - (
            nat_of_bits(bv.take(i as int)) + bn * p)) by (nonlinear_arith)
                requires
                    dsum - cin * p == nat_of_bits(av.take(i as int)) - nat_of_bits(
                        bv.take(i as int),
                    ),
                    an - bn - cin == dn - 2 * coutn,
            ;
        }
        dest.push(di);
        borrow = borrow2;
        i = i + 1;
    }
    proof {
        assert(av.take(size as int) =~= av);
        assert(bv.take(size as int) =~= bv);
        let dv = clears(dest@, c);
        lemma_nat_of_bits_bound(dv);
        lemma_nat_of_bits_bound(av);
        lemma_nat_of_bits_bound(bv);
    }
    (dest, borrow)
}

/// The ripple-borrow subtractor without a borrow out: the difference
/// wrapped to the operand width.
pub fn full_sub(c: &mut Cluster, a: &Vec<Bool>, b: &Vec<Bool>) -> (r: Vec<Bool>)
    requires
        old(c).wf(),
        lives_below(a@, old(c).wires()),
        lives_below(b@, old(c).wires()),
        a@.len() == b@.len(),
    ensures
        final(c).wf(),
        final(c).n() == old(c).n(),
        final(c).wires() >= old(c).wires(),
        final(c).rounds() == old(c).rounds(),
        r@.len() == a@.len(),
        lives_below(r@, final(c).wires()),
        word_val(r@, final(c)) == mod_pow2(
            (word_val(a@, old(c)) + pow2(a@.len()) - word_val(b@, old(c))) as nat,
            a@.len(),
        ),
        forall|u: int| 0 <= u < old(c).wires() ==> final(c).clear(u) == old(c).clear(u),
{
    let ghost av = clears(a@, c);
    let ghost bv = clears(b@, c);
    let (dest, borrow) = full_sub_borrow(c, a, b);
    proof {
        let size = a@.len();
        let dv = clears(dest@, c);
        lemma_nat_of_bits_bound(dv);
        lemma_nat_of_bits_bound(bv);
        let mult: int = if borrow.clear(c) {
            0
        } else {
            1
        };
        assert(nat_of_bits(av) + pow2(size) - nat_of_bits(bv) == nat_of_bits(dv) + mult * pow2(
            size,
        ));
        lemma_wrap(
            nat_of_bits(dv),
            mult,
            (nat_of_bits(av) + pow2(size) - nat_of_bits(bv)) as nat,
            size,
        );
    }
    dest
}

/// Flipping every bit complements the value.
pub proof fn lemma_not_val(s: Seq<bool>, t: Seq<bool>)
    requires
        t.len() == s.len(),
        forall|i: int| 0 <= i < s.len() ==> t[i] == !s[i],
    ensures
        nat_of_bits(t) + nat_of_bits(s) == pow2(s.len()) - 1,
    decreases s.len(),
{
    lemma2_to64();
    if s.len() > 0 {
        assert(t.skip(1).len() == s.skip(1).len());
        lemma_not_val(s.skip(1), t.skip(1));
        assert(nat_of_bits(s) == (if s[0] {
            1nat
        } else {
            0nat
        }) + 2 * nat_of_bits(s.skip(1)));
        assert(nat_of_bits(t) == (if t[0] {
            1nat
        } else {
            0nat
        }) + 2 * nat_of_bits(t.skip(1)));
        lemma_pow2_unfold(s.len());
    }
}

/// Two's-complement conditional negation: with the sign clear the value
/// passes through; with it set the result is the negation wrapped to the
/// width — every bit is flipped and one is carried in.
pub fn cond_neg(c: &mut Cluster, sign: &Bool, src: &Vec<Bool>) -> (r: Vec<Bool>)
    requires
        old(c).wf(),
        sign.lives_in(old(c)),
        lives_below(src@, old(c).wires()),
        src@.len() >= 1,
    ensures
        final(c).wf(),
        final(c).n() == old(c).n(),
        final(c).wires() >= old(c).wires(),
        final(c).rounds() == old(c).rounds(),
        r@.len() == src@.len(),
        lives_below(r@, final(c).wires()),
        word_val(r@, final(c)) == (if sign.clear(old(c)) {
            mod_pow2((pow2(src@.len()) - word_val(src@, old(c))) as nat, src@.len())
        } else {
            word_val(src@, old(c))
        }),
        forall|u: int| 0 <= u < old(c).wires() ==> final(c).clear(u) == old(c).clear(u),
{
    let size = src.len();
    let ghost w0 = c.wires();
    let ghost sv = clears(src@, c);
    let ghost s0 = sign.clear(c);
    let ghost masked = Seq::new(sv.len(), |i: int| sv[i] != s0);
    let mut dest: Vec<Bool> = Vec::new();
    let mut carry = *sign;
    let mut i: usize = 0;
    proof {
        assert(masked.take(0) =~= Seq::<bool>::empty());
        assert(clears(dest@, c) =~= Seq::<bool>::empty());
        lemma2_to64();
    }
    while i < size - 1
        invariant
            c.wf(),
            c.n() == old(c).n(),
            c.rounds() == old(c).rounds(),
            c.wires() >= w0,
            w0 == old(c).wires(),
            i <= size - 1,
            size == src@.len(),
            size >= 1,
            sv.len() == size,
            masked.len() == size,
            masked == Seq::new(sv.len(), |t: int| sv[t] != s0),
            sign.lives_in(old(c)),
            lives_below(src@, w0 as int),
            clears(src@, c) == sv,
            sign.clear(c) == s0,
            dest@.len() == i,
            lives_below(dest@, c.wires()),
            carry.lives_in(c),
            forall|u: int| 0 <= u < w0 ==> c.clear(u) == old(c).clear(u),
            nat_of_bits(clears(dest@, c)) + (if carry.clear(c) {
                pow2(i as nat)
            } else {
                0nat
            }) == nat_of_bits(masked.take(i as int)) + (if s0 {
                1nat
            } else {
                0nat
            }),
        decreases size - 1 - i,
    {
        let si = src[i];
        let ghost cpre = *c;
        let ghost dsum = nat_of_bits(clears(dest@, c));
        let d = Bool::xor(c, &si, sign);
        let t = Bool::xor(c, &d, &carry);
        let carry2 = Bool::and(c, &carry, &d);
        proof {
            let dn: int = if d.clear(c) {
                1
            } else {
                0
            };
            let cin: int = if carry.clear(&cpre) {
                1
            } else {
                0
            };
            let tn: int = if t.clear(c) {
                1
            } else {
                0
            };
            let coutn: int = if carry2.clear(c) {
                1
            } else {
                0
            };
            assert(si.clear(&cpre) == sv[i as int]);
            assert(d.clear(c) == masked[i as int]);
            assert(dn + cin == tn + 2 * coutn);
            lemma_clears_frame(dest@, &cpre, c, cpre.wires());
            lemma_clears_frame(src@, &cpre, c, w0 as int);
            assert(clears(dest@.push(t), c) =~= clears(dest@, c).push(t.clear(c)));
            lemma_nat_of_bits_push(clears(dest@, c), t.clear(c));
            assert(masked.take(i as int + 1) =~= masked.take(i as int).push(masked[i as int]));
            lemma_nat_of_bits_push(masked.take(i as int), masked[i as int]);
            lemma_pow2_unfold((i + 1) as nat);
            let p = pow2(i as nat) as int;
            let s0n: int = if s0 {
                1
            } else {
                0
            };
            assert(dsum + tn * p + coutn * (2 * p) == nat_of_bits(masked.take(i as int)) + dn * p
                + s0n) by (nonlinear_arith)
                requires
                    dsum + cin * p == nat_of_bits(masked.take(i as int)) + s0n,
                    dn + cin == tn + 2 * coutn,
            ;
        }
        dest.push(t);
        carry = carry2;
        i = i + 1;
    }
    // the top bit: the final carry out is dropped
    let sl = src[size - 1];
    let ghost cpre = *c;
    let ghost dsum = nat_of_bits(clears(dest@, c));
    let t2 = Bool::xor(c, sign, &carry);
    let dl = Bool::xor(c, &t2, &sl);
    proof {
        let mn: int = if masked[size - 1] {
            1
        } else {
            0
        };
        let cin: int = if carry.clear(&cpre) {
            1
        } else {
            0
        };
        let dn: int = if dl.clear(c) {
            1
        } else {
            0
        };
        let coutn: int = mn + cin - dn;
        assert(sl.clear(&cpre) == sv[size - 1]);
        assert(dl.clear(c) == ((s0 != carry.clear(&cpre)) != sv[size - 1]));
        assert(dl.clear(c) == (masked[size - 1] != carry.clear(&cpre)));
        assert(coutn == 0 || coutn == 2);
        lemma_clears_frame(dest@, &cpre, c, cpre.wires());
        lemma_clears_frame(src@, &cpre, c, w0 as int);
        assert(clears(dest@.push(dl), c) =~= clears(dest@, c).push(dl.clear(c)));
        lemma_nat_of_bits_push(clears(dest@, c), dl.clear(c));
        assert(masked.take(size - 1).push(masked[size - 1]) =~= masked);
        lemma_nat_of_bits_push(masked.take(size - 1), masked[size - 1]);
        lemma_pow2_unfold(size as nat);
        let p = pow2((size - 1) as nat) as int;
        let s0n: int = if s0 {
            1
        } else {
            0
        };
        assert(dsum + cin * p == nat_of_bits(masked.take(size - 1)) + s0n) by {
            if carry.clear(&cpre) {
                assert(cin * p == p) by (nonlinear_arith)
                    requires
                        cin == 1,
                ;
            } else {
                assert(cin * p == 0) by (nonlinear_arith)
                    requires
                        cin == 0,
                ;
            }
        }
        assert(dsum + dn * p + (coutn / 2) * (2 * p) == nat_of_bits(masked) + s0n)
            by (nonlinear_arith)
            requires
                dsum + cin * p == nat_of_bits(masked.take(size - 1)) + s0n,
                nat_of_bits(masked) == nat_of_bits(masked.take(size - 1)) + mn * p,
                mn + cin == dn + 2 * (coutn / 2),
                coutn == 0 || coutn == 2,
        ;
    }
    dest.push(dl);
    proof {
        let dv = clears(dest@, c);
        let s0n: nat = if s0 {
            1nat
        } else {
            0nat
        };
        lemma_nat_of_bits_bound(dv);
        lemma_nat_of_bits_bound(sv);
        let mult: int = (nat_of_bits(masked) + s0n - nat_of_bits(dv)) / pow2(size as nat) as int;
        assert(nat_of_bits(masked) + s0n == nat_of_bits(dv) + mult * pow2(size as nat))
            by (nonlinear_arith)
            requires
                nat_of_bits(masked) + s0n - nat_of_bits(dv) == 0 || nat_of_bits(masked) + s0n
                    - nat_of_bits(dv) == pow2(size as nat),
                mult == (nat_of_bits(masked) + s0n - nat_of_bits(dv)) / pow2(size as nat) as int,
                pow2(size as nat) > 0,
        ;
        lemma_wrap(nat_of_bits(dv), mult, (nat_of_bits(masked) + s0n) as nat, size as nat);
        if s0 {
            lemma_not_val(sv, masked);
            assert(nat_of_bits(masked) + s0n == pow2(size as nat) - nat_of_bits(sv));
        } else {
            assert(masked =~= sv);
            vstd::arithmetic::div_mod::lemma_small_mod(nat_of_bits(sv), pow2(size as nat));
        }
    }
    dest
}

/// The top bit reads whether the value reaches the top power of two.
pub proof fn lemma_top_bit(s: Seq<bool>)
    requires
        s.len() >= 1,
    ensures
        s[s.len() - 1] == (nat_of_bits(s) >= pow2((s.len() - 1) as nat)),
{
    let k = (s.len() - 1) as int;
    lemma_val_split(s, k);
    lemma_nat_of_bits_bound(s.take(k));
    assert(s.skip(k) =~= seq![s[k]]);
    assert(nat_of_bits(s.skip(k)) == (if s.skip(k)[0] {
        1nat
    } else {
        0nat
    }) + 2 * nat_of_bits(s.skip(k).skip(1)));
    assert(s.skip(k).skip(1) =~= Seq::<bool>::empty());
    assert(nat_of_bits(Seq::<bool>::empty()) == 0);
    vstd::arithmetic::power2::lemma_pow2_pos(k as nat);
    if s[k] {
        assert(nat_of_bits(s) == nat_of_bits(s.take(k)) + pow2(k as nat) * 1);
    } else {
        assert(nat_of_bits(s) == nat_of_bits(s.take(k)) + pow2(k as nat) * 0);
    }
}

/// When a value is zero, every suffix of its bits is zero.
proof fn lemma_zero_suffix(s: Seq<bool>, k: int)
    requires
        0 <= k <= s.len(),
        nat_of_bits(s) == 0,
    ensures
        nat_of_bits(s.skip(k)) == 0,
        nat_of_bits(s.take(k)) == 0,
{
    lemma_val_split(s, k);
    assert(pow2(k as nat) * nat_of_bits(s.skip(k)) == 0);
    vstd::arithmetic::power2::lemma_pow2_pos(k as nat);
    assert(nat_of_bits(s.skip(k)) == 0) by (nonlinear_arith)
        requires
            pow2(k as nat) * nat_of_bits(s.skip(k)) == 0,
            pow2(k as nat) > 0,
    ;
}

/// Restoring binary long division on unsigned operands: a prefix-OR
/// overflow flag per position, then, from the most to the least
/// significant position, a trial subtraction whose borrow — or the
/// overflow flag — restores the remainder and clears the quotient bit.
/// A zero divisor yields an all-ones quotient and the dividend as
/// remainder.
#[verifier::rlimit(80)]
pub fn full_div(c: &mut Cluster, a: &Vec<Bool>, b: &Vec<Bool>) -> (r: (Vec<Bool>, Vec<Bool>))
    requires
        old(c).wf(),
        lives_below(a@, old(c).wires()),
        lives_below(b@, old(c).wires()),
        a@.len() == b@.len(),
        a@.len() >= 1,
    ensures
        final(c).wf(),
        final(c).n() == old(c).n(),
        final(c).wires() >= old(c).wires(),
        final(c).rounds() == old(c).rounds(),
        r.0@.len() == a@.len(),
        r.1@.len() == a@.len(),
        lives_below(r.0@, final(c).wires()),
        lives_below(r.1@, final(c).wires()),
        word_val(b@, old(c)) > 0 ==> word_val(r.0@, final(c)) == word_val(a@, old(c)) / word_val(
            b@,
            old(c),
        ) && word_val(r.1@, final(c)) == word_val(a@, old(c)) % word_val(b@, old(c)),
        word_val(b@, old(c)) == 0 ==> word_val(r.0@, final(c)) == pow2(a@.len()) - 1 && word_val(
            r.1@,
            final(c),
        ) == word_val(a@, old(c)),
        forall|u: int| 0 <= u < old(c).wires() ==> final(c).clear(u) == old(c).clear(u),
{
    let len = a.len();
    let ghost w0 = c.wires();
    let ghost av = clears(a@, c);
    let ghost bv = clears(b@, c);
    let ghost bval = nat_of_bits(bv);
    // a flag per position: does the divisor spill past the trial window
    let ghost ovv = Seq::new(len as nat, |t: int| nat_of_bits(bv.skip(len - t)) != 0);
    let f = Bool::constant(c, false);
    let mut ov: Vec<Bool> = Vec::new();
    ov.push(f);
    let mut i: usize = 1;
    proof {
        lemma_clears_frame(a@, old(c), c, w0 as int);
        lemma_clears_frame(b@, old(c), c, w0 as int);
        assert(bv.skip(len as int) =~= Seq::<bool>::empty());
        assert(nat_of_bits(Seq::<bool>::empty()) == 0);
        assert(clears(ov@, c) =~= ovv.take(1));
    }
    while i < len
        invariant
            c.wf(),
            c.n() == old(c).n(),
            c.rounds() == old(c).rounds(),
            c.wires() >= w0,
            w0 == old(c).wires(),
            1 <= i <= len,
            len == a@.len(),
            b@.len() == len,
            bv.len() == len,
            ovv.len() == len,
            ovv == Seq::new(len as nat, |t: int| nat_of_bits(bv.skip(len - t)) != 0),
            lives_below(b@, w0 as int),
            clears(b@, c) == bv,
            ov@.len() == i,
            lives_below(ov@, c.wires()),
            forall|u: int| 0 <= u < w0 ==> c.clear(u) == old(c).clear(u),
            clears(ov@, c) =~= ovv.take(i as int),
        decreases len - i,
    {
        let prev = ov[i - 1];
        let bb = b[len - i];
        let ghost cpre = *c;
        let o = Bool::or(c, &prev, &bb);
        proof {
            lemma_clears_frame(ov@, &cpre, c, cpre.wires());
            assert(clears(ov@.push(o), c) =~= clears(ov@, c).push(o.clear(c)));
            assert(prev.clear(&cpre) == clears(ov@, &cpre)[i - 1]);
            assert(clears(ov@, &cpre)[i - 1] == ovv.take(i as int)[i - 1]);
            assert(bb.clear(&cpre) == bv[len - i]);
            let t = bv.skip(len - i);
            assert(t[0] == bv[len - i]);
            assert(t.skip(1) =~= bv.skip(len - i + 1));
            assert(nat_of_bits(t) == (if t[0] {
                1nat
            } else {
                0nat
            }) + 2 * nat_of_bits(t.skip(1)));
            assert(o.clear(c) == (ovv[i - 1] || bv[len - i]));
            assert(o.clear(c) == ovv[i as int]);
            assert(clears(ov@, c).push(o.clear(c)) =~= ovv.take(i as int + 1));
        }
        ov.push(o);
        i = i + 1;
    }
    // the quotient starts cleared; the remainder starts as the dividend
    let mut quot: Vec<Bool> = Vec::new();
    let mut z: usize = 0;
    while z < len
        invariant
            c.wf(),
            c.n() == old(c).n(),
            c.rounds() == old(c).rounds(),
            c.wires() >= w0,
            z <= len,
            quot@.len() == z,
            lives_below(quot@, c.wires()),
            w0 == old(c).wires(),
            ov@.len() == len,
            lives_below(ov@, c.wires()),
            clears(ov@, c) =~= ovv.take(len as int),
            forall|u: int| 0 <= u < w0 ==> c.clear(u) == old(c).clear(u),
            clears(quot@, c) =~= crate::bitseq::zero_bits(z as nat),
        decreases len - z,
    {
        let ghost cpre = *c;
        let fz = Bool::constant(c, false);
        proof {
            lemma_clears_frame(quot@, &cpre, c, cpre.wires());
            lemma_clears_frame(ov@, &cpre, c, cpre.wires());
            assert(clears(quot@.push(fz), c) =~= clears(quot@, c).push(fz.clear(c)));
            assert(clears(quot@, c).push(false) =~= crate::bitseq::zero_bits((z + 1) as nat));
        }
        quot.push(fz);
        z = z + 1;
    }
    let mut rem: Vec<Bool> = Vec::new();
    let mut z: usize = 0;
    while z < len
        invariant
            z <= len,
            len == a@.len(),
            rem@ =~= a@.take(z as int),
        decreases len - z,
    {
        let az = a[z];
        rem.push(az);
        z = z + 1;
    }
    proof {
        assert(rem@ =~= a@);
        lemma_clears_frame(a@, old(c), c, w0 as int);
        lemma_clears_frame(b@, old(c), c, w0 as int);
        assert(clears(a@, c) == av);
        assert(clears(b@, c) == bv);
        assert(ovv.take(len as int) =~= ovv);
        assert(av.skip(len as int) =~= Seq::<bool>::empty());
        assert(clears(quot@, c).skip(len as int) =~= Seq::<bool>::empty());
        assert(clears(rem@, c).take(len as int) =~= av.take(len as int));
        assert(clears(quot@, c).take(len as int) =~= crate::bitseq::zero_bits(len as nat));
        assert(clears(rem@, c).skip(len as int) =~= Seq::<bool>::empty());
        assert(nat_of_bits(Seq::<bool>::empty()) == 0);
        assert(av.take(len as int) =~= av);
        lemma2_to64();
    }
    let mut idx: usize = len;
    while idx > 0
        invariant
            c.wf(),
            c.n() == old(c).n(),
            c.rounds() == old(c).rounds(),
            c.wires() >= w0,
            w0 == old(c).wires(),
            idx <= len,
            len == a@.len(),
            b@.len() == len,
            av.len() == len,
            bv.len() == len,
            ovv.len() == len,
            bval == nat_of_bits(bv),
            ovv == Seq::new(len as nat, |t: int| nat_of_bits(bv.skip(len - t)) != 0),
            lives_below(a@, w0 as int),
            lives_below(b@, w0 as int),
            clears(a@, c) == av,
            clears(b@, c) == bv,
            ov@.len() == len,
            lives_below(ov@, c.wires()),
            clears(ov@, c) =~= ovv,
            quot@.len() == len,
            rem@.len() == len,
            lives_below(quot@, c.wires()),
            lives_below(rem@, c.wires()),
            forall|u: int| 0 <= u < w0 ==> c.clear(u) == old(c).clear(u),
            clears(rem@, c).take(idx as int) =~= av.take(idx as int),
            clears(quot@, c).take(idx as int) =~= crate::bitseq::zero_bits(idx as nat),
            bval > 0 ==> nat_of_bits(av.skip(idx as int)) == nat_of_bits(
                clears(quot@, c).skip(idx as int),
            ) * bval + nat_of_bits(clears(rem@, c).skip(idx as int)) && nat_of_bits(
                clears(rem@, c).skip(idx as int),
            ) < bval,
            bval == 0 ==> nat_of_bits(clears(quot@, c).skip(idx as int)) == pow2(
                (len - idx) as nat,
            ) - 1 && nat_of_bits(clears(rem@, c).skip(idx as int)) == nat_of_bits(
                av.skip(idx as int),
            ),
        decreases idx,
    {
        let i = idx - 1;
        let m = len - i;
        let ghost c0 = *c;
        let ghost rc0 = clears(rem@, c);
        let ghost qc0 = clears(quot@, c);
        let ghost rr = nat_of_bits(rc0.skip(idx as int));
        let ghost qq = nat_of_bits(qc0.skip(idx as int));
        // the trial window: the remainder's suffix against the
        // divisor's low bits
        let mut remi: Vec<Bool> = Vec::new();
        let mut j: usize = i;
        while j < len
            invariant
                i <= j <= len,
                rem@.len() == len,
                remi@ =~= rem@.subrange(i as int, j as int),
            decreases len - j,
        {
            let rj = rem[j];
            remi.push(rj);
            j = j + 1;
        }
        let mut blow: Vec<Bool> = Vec::new();
        let mut j: usize = 0;
        while j < m
            invariant
                j <= m,
                m <= len,
                b@.len() == len,
                blow@ =~= b@.take(j as int),
            decreases m - j,
        {
            let bj = b[j];
            blow.push(bj);
            j = j + 1;
        }
        let tr = full_sub_borrow(c, &remi, &blow);
        let trial = tr.0;
        let bor = tr.1;
        let ghost c1 = *c;
        let ovi = ov[i];
        let toobig = Bool::or(c, &bor, &ovi);
        let ghost c2 = *c;
        let nq = Bool::not(c, &toobig);
        quot.set(i, nq);
        let ghost c3 = *c;
        let muxed = crate::natural::mux_wires(c, &toobig, &remi, &trial);
        // stitch the restored window back onto the untouched prefix
        let mut nr: Vec<Bool> = Vec::new();
        let mut j: usize = 0;
        while j < i
            invariant
                j <= i,
                i < len,
                rem@.len() == len,
                nr@ =~= rem@.take(j as int),
            decreases i - j,
        {
            let rj = rem[j];
            nr.push(rj);
            j = j + 1;
        }
        let mut j: usize = 0;
        while j < m
            invariant
                j <= m,
                muxed@.len() == m,
                i + m == len,
                rem@.len() == len,
                nr@ =~= rem@.take(i as int) + muxed@.take(j as int),
            decreases m - j,
        {
            proof {
                assert((rem@.take(i as int) + muxed@.take(j as int)).push(muxed@[j as int])
                    =~= rem@.take(i as int) + muxed@.take(j as int + 1));
            }
            let mj = muxed[j];
            nr.push(mj);
            j = j + 1;
        }
        proof {
            let cf = *c;
            assert(muxed@.take(m as int) =~= muxed@);
            // cleartext bookkeeping across the four circuit steps
            assert(clears(remi@, &c0) =~= rc0.skip(i as int));
            assert(clears(blow@, &c0) =~= bv.take(m as int));
            lemma_clears_frame(rem@, &c0, &cf, c0.wires());
            lemma_clears_frame(remi@, &c0, &c1, c0.wires());
            lemma_clears_frame(remi@, &c1, &c3, c1.wires());
            lemma_clears_frame(trial@, &c1, &c3, c1.wires());
            lemma_clears_frame(a@, &c0, &cf, w0 as int);
            lemma_clears_frame(b@, &c0, &cf, w0 as int);
            lemma_clears_frame(ov@, &c0, &cf, c0.wires());
            assert(clears(rem@, &cf) =~= rc0);
            // the trial subtraction and the restore decision
            let rwin = nat_of_bits(rc0.skip(i as int));
            let blo = nat_of_bits(bv.take(m as int));
            let tval = nat_of_bits(clears(trial@, &c1));
            let born = bor.clear(&c1);
            assert(tval as int == rwin - blo + (if born {
                pow2(m as nat) as int
            } else {
                0
            }));
            assert(born == (rwin < blo));
            assert(ovi.clear(&c1) == ovv[i as int]);
            assert(toobig.clear(&c2) == (born || ovv[i as int]));
            let big = toobig.clear(&c2);
            // the divisor splits at the window
            lemma_val_split(bv, m as int);
            let bhi = nat_of_bits(bv.skip(m as int));
            lemma_nat_of_bits_bound(rc0.skip(i as int));
            assert(rc0.skip(i as int).len() == m);
            vstd::arithmetic::power2::lemma_pow2_pos(m as nat);
            // the flag reads: divisor too wide for the window
            assert(ovv[i as int] == (bhi != 0)) by {
                assert(len - i == m);
            }
            if bhi != 0 {
                assert(bval >= pow2(m as nat) * 1) by (nonlinear_arith)
                    requires
                        bval == blo + pow2(m as nat) * bhi,
                        bhi >= 1,
                ;
                assert(rwin < bval);
            } else {
                assert(bval == blo);
            }
            assert(big == (rwin < bval));
            // the remainder window before this step holds the next
            // dividend bit on top of the running remainder
            assert(rc0.skip(i as int)[0] == rc0[i as int]);
            assert(rc0.skip(i as int).skip(1) =~= rc0.skip(idx as int));
            assert(nat_of_bits(rc0.skip(i as int)) == (if rc0[i as int] {
                1nat
            } else {
                0nat
            }) + 2 * nat_of_bits(rc0.skip(i as int).skip(1)));
            assert(rc0[i as int] == av[i as int]) by {
                assert(rc0.take(idx as int)[i as int] == av.take(idx as int)[i as int]);
            }
            let an: nat = if av[i as int] {
                1nat
            } else {
                0nat
            };
            assert(rwin == an + 2 * rr);
            // the dividend's suffix grows by the same bit
            assert(av.skip(i as int)[0] == av[i as int]);
            assert(av.skip(i as int).skip(1) =~= av.skip(idx as int));
            assert(nat_of_bits(av.skip(i as int)) == (if av.skip(i as int)[0] {
                1nat
            } else {
                0nat
            }) + 2 * nat_of_bits(av.skip(i as int).skip(1)));
            // the new remainder and quotient suffixes
            let rc1 = clears(nr@, &cf);
            let qc1 = clears(quot@, &cf);
            assert(rc1 =~= rc0.take(i as int) + clears(muxed@, &cf));
            assert(clears(muxed@, &cf) =~= (if big {
                clears(remi@, &c3)
            } else {
                clears(trial@, &c3)
            }));
            assert(clears(remi@, &c3) =~= rc0.skip(i as int));
            assert(rc1.skip(i as int) =~= clears(muxed@, &cf));
            assert(rc1.take(i as int) =~= rc0.take(i as int));
            assert(rc0.take(i as int) =~= av.take(i as int)) by {
                assert forall|t: int| 0 <= t < i implies rc0.take(i as int)[t] == av.take(
                    i as int,
                )[t] by {
                    assert(rc0.take(idx as int)[t] == av.take(idx as int)[t]);
                }
            }
            // the quotient wire was overwritten in place
            assert(qc1 =~= qc0.update(i as int, nq.clear(&c3)));
            assert(nq.clear(&c3) == !big);
            assert(qc1.take(i as int) =~= crate::bitseq::zero_bits(i as nat)) by {
                assert forall|t: int| 0 <= t < i implies qc1.take(i as int)[t] == false by {
                    assert(qc0.take(idx as int)[t] == crate::bitseq::zero_bits(idx as nat)[t]);
                }
            }
            assert(qc1.skip(i as int)[0] == !big);
            assert(qc1.skip(i as int).skip(1) =~= qc0.skip(idx as int));
            assert(nat_of_bits(qc1.skip(i as int)) == (if !big {
                1nat
            } else {
                0nat
            }) + 2 * qq);
            let rnew = nat_of_bits(rc1.skip(i as int));
            if big {
                assert(rnew == rwin);
            } else {
                assert(rnew == tval);
            }
            // the running identity: dividend suffix = quotient * divisor
            // + remainder
            if bval > 0 {
                if big {
                    assert(nat_of_bits(av.skip(i as int)) == ((if !big {
                        1nat
                    } else {
                        0nat
                    }) + 2 * qq) * bval + rnew) by (nonlinear_arith)
                        requires
                            big,
                            nat_of_bits(av.skip(i as int)) == an + 2 * nat_of_bits(
                                av.skip(idx as int),
                            ),
                            nat_of_bits(av.skip(idx as int)) == qq * bval + rr,
                            rnew == rwin,
                            rwin == an + 2 * rr,
                    ;
                } else {
                    assert(!born && bhi == 0);
                    assert(tval as int == rwin - blo);
                    assert(nat_of_bits(av.skip(i as int)) == ((if !big {
                        1nat
                    } else {
                        0nat
                    }) + 2 * qq) * bval + rnew) by (nonlinear_arith)
                        requires
                            !big,
                            nat_of_bits(av.skip(i as int)) == an + 2 * nat_of_bits(
                                av.skip(idx as int),
                            ),
                            nat_of_bits(av.skip(idx as int)) == qq * bval + rr,
                            rnew as int == rwin - bval,
                            rwin == an + 2 * rr,
                    ;
                    assert(rnew < bval);
                }
                assert(rr < bval);
                assert(rwin < 2 * bval);
                if big {
                    assert(rnew < bval);
                }
            } else {
                // zero divisor: nothing ever subtracts, every quotient
                // bit sets
                lemma_zero_suffix(bv, m as int);
                assert(blo == 0);
                assert(!born);
                assert(bhi == 0);
                assert(!big);
                assert(rnew as int == rwin - 0);
                assert(nat_of_bits(qc1.skip(i as int)) == 1 + 2 * (pow2((len - idx) as nat)
                    - 1));
                lemma_pow2_unfold((len - i) as nat);
                assert(rnew == nat_of_bits(av.skip(i as int)));
            }
        }
        rem = nr;
        idx = i;
    }
    proof {
        let rc = clears(rem@, c);
        let qc = clears(quot@, c);
        assert(rc.skip(0) =~= rc);
        assert(qc.skip(0) =~= qc);
        assert(av.skip(0) =~= av);
        if bval > 0 {
            vstd::arithmetic::div_mod::lemma_fundamental_div_mod_converse(
                nat_of_bits(av) as int,
                bval as int,
                nat_of_bits(qc) as int,
                nat_of_bits(rc) as int,
            );
        }
    }
    (quot, rem)
}

} // verus!
