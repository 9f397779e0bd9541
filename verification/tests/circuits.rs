//! The typed secure values and their arithmetic circuits, run through
//! the in-process multi-party session.

use gmw::bitseq::BitVec;
use gmw::boolean::Bool;
use gmw::cluster::Cluster;
use gmw::integer::Int;
use gmw::natural::Nat;
use gmw::prg::Prg;
use gmw::protocol::Protocol;
use gmw::sharing::share_split;
use gmw::Error;

fn byte_bitvec(value: u8) -> BitVec {
    let mut bv = BitVec::new();
    for b in gmw::bits::byte_to_bits(value) {
        bv.push(b);
    }
    bv
}

/// Secret-share one byte among the session's parties.
fn secret_u8(c: &mut Cluster, prg: &mut Prg, value: u8) -> Nat {
    let shares = share_split(prg, c.n_parties(), &byte_bitvec(value));
    Nat::new(c, &shares)
}

fn secret_i8(c: &mut Cluster, prg: &mut Prg, value: i8) -> Int {
    let shares = share_split(prg, c.n_parties(), &byte_bitvec(value as u8));
    Int::new(c, &shares)
}

fn get_u8(c: &mut Cluster, v: &Nat) -> u8 {
    let bytes = Nat::get(c, v);
    assert_eq!(bytes.len(), 1);
    bytes[0]
}

fn get_i8(c: &mut Cluster, v: &Int) -> i8 {
    let bytes = Int::get(c, v);
    assert_eq!(bytes.len(), 1);
    bytes[0] as i8
}

#[test]
fn two_party_sum_end_to_end() {
    // party 0 holds 5, party 1 holds 3; both read the cleartext 8
    let mut prg = Prg::from_seed(41, 42);
    let mut c = Cluster::new(2);
    let a = secret_u8(&mut c, &mut prg, 5);
    let b = secret_u8(&mut c, &mut prg, 3);
    let sum = Nat::add(&mut c, &a, &b);
    assert_eq!(get_u8(&mut c, &sum), 8);
    // reading again observes the same settled value
    assert_eq!(get_u8(&mut c, &sum), 8);
}

#[test]
fn constants_need_no_round() {
    let mut c = Cluster::new(2);
    let t1 = Bool::constant(&mut c, true);
    let t2 = Bool::constant(&mut c, true);
    let x = Bool::xor(&mut c, &t1, &t2);
    assert_eq!(Bool::get(&mut c, &x), false);
    assert_eq!(c.rounds_run(), 0);
}

#[test]
fn bool_gate_table() {
    let mut prg = Prg::from_seed(1, 1);
    for a in [false, true] {
        for b in [false, true] {
            let mut c = Cluster::new(3);
            let sa = share_split(&mut prg, 3, &bit_bitvec(a));
            let sb = share_split(&mut prg, 3, &bit_bitvec(b));
            let wa = Bool::new(&mut c, &first_bits(&sa));
            let wb = Bool::new(&mut c, &first_bits(&sb));
            let x = Bool::xor(&mut c, &wa, &wb);
            let n = Bool::and(&mut c, &wa, &wb);
            let o = Bool::or(&mut c, &wa, &wb);
            let e = Bool::eq(&mut c, &wa, &wb);
            let na = Bool::not(&mut c, &wa);
            assert_eq!(Bool::get(&mut c, &x), a != b);
            assert_eq!(Bool::get(&mut c, &n), a && b);
            assert_eq!(Bool::get(&mut c, &o), a || b);
            assert_eq!(Bool::get(&mut c, &e), a == b);
            assert_eq!(Bool::get(&mut c, &na), !a);
        }
    }
}

fn bit_bitvec(b: bool) -> BitVec {
    let mut bv = BitVec::new();
    bv.push(b);
    bv
}

fn first_bits(shares: &[BitVec]) -> Vec<bool> {
    shares.iter().map(|s| s.get(0)).collect()
}

#[test]
fn bool_mux_table() {
    let mut prg = Prg::from_seed(2, 2);
    for g in [false, true] {
        for a in [false, true] {
            for b in [false, true] {
                let mut c = Cluster::new(2);
                let wg = Bool::new(&mut c, &first_bits(&share_split(&mut prg, 2, &bit_bitvec(g))));
                let wa = Bool::new(&mut c, &first_bits(&share_split(&mut prg, 2, &bit_bitvec(a))));
                let wb = Bool::new(&mut c, &first_bits(&share_split(&mut prg, 2, &bit_bitvec(b))));
                let m = Bool::mux(&mut c, &wg, &wa, &wb);
                assert_eq!(Bool::get(&mut c, &m), if g { a } else { b });
            }
        }
    }
}

#[test]
fn nat_arithmetic_mod_256() {
    let mut prg = Prg::from_seed(3, 3);
    for a in (0u16..256).step_by(37) {
        for b in (0u16..256).step_by(41) {
            let mut c = Cluster::new(2);
            let wa = secret_u8(&mut c, &mut prg, a as u8);
            let wb = secret_u8(&mut c, &mut prg, b as u8);
            let sum = Nat::add(&mut c, &wa, &wb);
            let diff = Nat::sub(&mut c, &wa, &wb);
            let prod = Nat::mul(&mut c, &wa, &wb);
            assert_eq!(get_u8(&mut c, &sum), (a as u8).wrapping_add(b as u8));
            assert_eq!(get_u8(&mut c, &diff), (a as u8).wrapping_sub(b as u8));
            assert_eq!(get_u8(&mut c, &prod), (a as u8).wrapping_mul(b as u8));
        }
    }
}

#[test]
fn nat_arithmetic_exact_values() {
    let mut prg = Prg::from_seed(4, 4);
    let mut c = Cluster::new(2);
    let wa = secret_u8(&mut c, &mut prg, 200);
    let wb = secret_u8(&mut c, &mut prg, 100);
    let sum = Nat::add(&mut c, &wa, &wb);
    let diff = Nat::sub(&mut c, &wb, &wa);
    let prod = Nat::mul(&mut c, &wa, &wb);
    assert_eq!(get_u8(&mut c, &sum), 44);
    assert_eq!(get_u8(&mut c, &diff), 156);
    assert_eq!(get_u8(&mut c, &prod), 32);
}

#[test]
fn nat_comparisons_agree_with_native() {
    let mut prg = Prg::from_seed(5, 5);
    for a in [0u8, 1, 2, 7, 8, 127, 128, 200, 255] {
        for b in [0u8, 1, 7, 128, 254, 255] {
            let mut c = Cluster::new(2);
            let wa = secret_u8(&mut c, &mut prg, a);
            let wb = secret_u8(&mut c, &mut prg, b);
            let ge = Nat::gte(&mut c, &wa, &wb);
            let lt = Nat::lt(&mut c, &wa, &wb);
            let le = Nat::lte(&mut c, &wa, &wb);
            let gt = Nat::gt(&mut c, &wa, &wb);
            let eq = Nat::eq(&mut c, &wa, &wb);
            assert_eq!(Bool::get(&mut c, &ge), a >= b);
            assert_eq!(Bool::get(&mut c, &lt), a < b);
            assert_eq!(Bool::get(&mut c, &le), a <= b);
            assert_eq!(Bool::get(&mut c, &gt), a > b);
            assert_eq!(Bool::get(&mut c, &eq), a == b);
        }
    }
}

#[test]
fn nat_mux_picks_by_guard() {
    let mut prg = Prg::from_seed(6, 6);
    for g in [false, true] {
        let mut c = Cluster::new(2);
        let wg = Bool::new(&mut c, &first_bits(&share_split(&mut prg, 2, &bit_bitvec(g))));
        let wa = secret_u8(&mut c, &mut prg, 77);
        let wb = secret_u8(&mut c, &mut prg, 33);
        let m = Nat::mux(&mut c, &wg, &wa, &wb);
        assert_eq!(get_u8(&mut c, &m), if g { 77 } else { 33 });
    }
}

#[test]
fn nat_constant_is_public() {
    let mut c = Cluster::new(2);
    let k = Nat::constant(&mut c, &[42]);
    assert_eq!(get_u8(&mut c, &k), 42);
    assert_eq!(c.rounds_run(), 0);
}

#[test]
fn int_division_reference_table() {
    // quotients truncate toward zero; remainders take the dividend's sign
    let table: [(i8, i8, i8, i8); 8] = [
        (-7, 2, -3, -1),
        (7, -2, -3, 1),
        (-7, -2, 3, -1),
        (7, 2, 3, 1),
        (-128, 2, -64, 0),
        (127, 10, 12, 7),
        (-1, 3, 0, -1),
        (-128, -128, 1, 0),
    ];
    let mut prg = Prg::from_seed(7, 7);
    for (a, b, q, m) in table {
        let mut c = Cluster::new(2);
        let wa = secret_i8(&mut c, &mut prg, a);
        let wb = secret_i8(&mut c, &mut prg, b);
        let wq = Int::div(&mut c, &wa, &wb);
        let wm = Int::modulo(&mut c, &wa, &wb);
        assert_eq!(get_i8(&mut c, &wq), q, "{} / {}", a, b);
        assert_eq!(get_i8(&mut c, &wm), m, "{} % {}", a, b);
    }
}

#[test]
fn int_arithmetic_wraps_two_complement() {
    let mut prg = Prg::from_seed(8, 8);
    for (a, b) in [(5i8, 3i8), (-5, 3), (-100, -100), (127, 1), (-128, -1), (0, -7)] {
        let mut c = Cluster::new(2);
        let wa = secret_i8(&mut c, &mut prg, a);
        let wb = secret_i8(&mut c, &mut prg, b);
        let sum = Int::add(&mut c, &wa, &wb);
        let diff = Int::sub(&mut c, &wa, &wb);
        let prod = Int::mul(&mut c, &wa, &wb);
        assert_eq!(get_i8(&mut c, &sum), a.wrapping_add(b));
        assert_eq!(get_i8(&mut c, &diff), a.wrapping_sub(b));
        assert_eq!(get_i8(&mut c, &prod), a.wrapping_mul(b));
    }
}

#[test]
fn int_abs_and_comparisons() {
    let mut prg = Prg::from_seed(9, 9);
    for (a, b) in [(5i8, -3i8), (-5, -3), (0, 0), (-128, 127), (1, 1), (-1, 1)] {
        let mut c = Cluster::new(2);
        let wa = secret_i8(&mut c, &mut prg, a);
        let wb = secret_i8(&mut c, &mut prg, b);
        let abs_a = Int::abs(&mut c, &wa);
        let ge = Int::gte(&mut c, &wa, &wb);
        let lt = Int::lt(&mut c, &wa, &wb);
        let le = Int::lte(&mut c, &wa, &wb);
        let gt = Int::gt(&mut c, &wa, &wb);
        let eq = Int::eq(&mut c, &wa, &wb);
        assert_eq!(get_i8(&mut c, &abs_a), a.wrapping_abs());
        assert_eq!(Bool::get(&mut c, &ge), a >= b);
        assert_eq!(Bool::get(&mut c, &lt), a < b);
        assert_eq!(Bool::get(&mut c, &le), a <= b);
        assert_eq!(Bool::get(&mut c, &gt), a > b);
        assert_eq!(Bool::get(&mut c, &eq), a == b);
    }
}

#[test]
fn int_xor_and_mux() {
    let mut prg = Prg::from_seed(10, 10);
    let mut c = Cluster::new(2);
    let wa = secret_i8(&mut c, &mut prg, 0x5c);
    let wb = secret_i8(&mut c, &mut prg, 0x33);
    let x = Int::xor(&mut c, &wa, &wb);
    assert_eq!(get_i8(&mut c, &x), 0x6f);
    let g = Bool::constant(&mut c, true);
    let m = Int::mux(&mut c, &g, &wa, &wb);
    assert_eq!(get_i8(&mut c, &m), 0x5c);
}

#[test]
fn party_round_runs_in_lockstep() {
    // two parties drive the per-party protocol by hand: identical gate
    // order, one message exchange, and both resolve the same cleartext
    let mut p0 = Protocol::new(0, 2);
    let mut p1 = Protocol::new(1, 2);
    // bit a = 1 (shares 1, 0), bit b = 1 (shares 0, 1)
    let a0 = p0.bool_share(true);
    let a1 = p1.bool_share(false);
    let b0 = p0.bool_share(false);
    let b1 = p1.bool_share(true);
    let w0 = p0.bool_and(a0, b0);
    let w1 = p1.bool_and(a1, b1);
    assert_eq!(p0.try_get(w0), None);
    let msgs = vec![p0.round_msg(), p1.round_msg()];
    p0.round_finish(&msgs).unwrap();
    p1.round_finish(&msgs).unwrap();
    assert_eq!(p0.try_get(w0), Some(true));
    assert_eq!(p1.try_get(w1), Some(true));
}

#[test]
fn round_finish_refuses_wrong_message_set() {
    let mut p0 = Protocol::new(0, 2);
    let _ = p0.bool_share(true);
    // only one message for a two-party session
    let msgs = vec![p0.round_msg()];
    assert_eq!(p0.round_finish(&msgs).unwrap_err(), Error::BackendError);
}
