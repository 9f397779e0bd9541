//! The boolean secure value: a copyable handle onto one wire of a
//! session. XOR is free; AND waits for a round; NOT, OR, MUX and EQ are
//! derived from XOR and AND, so AND is the only gate that is ever
//! queued.

use vstd::prelude::*;

verus! {

use crate::cluster::{Cluster, xor_seq};

/// Whether every handle in a vector points below wire `w`.
pub open spec fn lives_below(v: Seq<Bool>, w: int) -> bool {
    forall|i: int| 0 <= i < v.len() ==> 0 <= (#[trigger] v[i]).wire_view() < w
}

/// The cleartexts of a vector of handles, in order.
pub open spec fn clears(v: Seq<Bool>, c: &Cluster) -> Seq<bool> {
    Seq::new(v.len(), |i: int| v[i].clear(c))
}

/// Cleartexts of settled handles do not move while a session grows.
pub proof fn lemma_clears_frame(v: Seq<Bool>, c1: &Cluster, c2: &Cluster, w0: int)
    requires
        lives_below(v, w0),
        forall|u: int| 0 <= u < w0 ==> c2.clear(u) == c1.clear(u),
    ensures
        clears(v, c2) =~= clears(v, c1),
{
}

/// A handle onto one wire of a session.
#[derive(Clone, Copy, Debug, PartialEq, Eq, Structural)]
pub struct Bool {
    wire: usize,
}

impl Bool {
    /// The wire this handle names.
    pub closed spec fn wire_view(&self) -> int {
        self.wire as int
    }

    /// Whether the handle points into the session's arena.
    pub open spec fn lives_in(&self, c: &Cluster) -> bool {
        0 <= self.wire_view() < c.wires()
    }

    /// The cleartext this handle's wire carries.
    pub open spec fn clear(&self, c: &Cluster) -> bool {
        c.clear(self.wire_view())
    }

    /// A secret-shared input bit: each party contributes its share, in
    /// party order, and the cleartext is their XOR.
    pub fn new(c: &mut Cluster, shares: &Vec<bool>) -> (r: Bool)
        requires
            old(c).wf(),
            shares@.len() == old(c).n(),
        ensures
            final(c).wf(),
            final(c).n() == old(c).n(),
            final(c).wires() >= old(c).wires(),
            final(c).rounds() == old(c).rounds(),
            r.lives_in(final(c)),
            r.clear(final(c)) == xor_seq(shares@),
            forall|u: int| 0 <= u < old(c).wires() ==> final(c).clear(u) == old(c).clear(u),
    {
        let w = c.input(shares);
        Bool { wire: w }
    }

    /// A publicly known bit; no sharing and no round: party 0 holds the
    /// bit, every other party holds false.
    pub fn constant(c: &mut Cluster, value: bool) -> (r: Bool)
        requires
            old(c).wf(),
        ensures
            final(c).wf(),
            final(c).n() == old(c).n(),
            final(c).wires() >= old(c).wires(),
            final(c).rounds() == old(c).rounds(),
            r.lives_in(final(c)),
            r.clear(final(c)) == value,
            final(c).wire_public(r.wire_view()),
            forall|u: int| 0 <= u < old(c).wires() ==> final(c).clear(u) == old(c).clear(u),
    {
        let w = c.constant(value);
        Bool { wire: w }
    }

    /// XOR: free, computed on local shares, never queued.
    pub fn xor(c: &mut Cluster, a: &Bool, b: &Bool) -> (r: Bool)
        requires
            old(c).wf(),
            a.lives_in(old(c)),
            b.lives_in(old(c)),
        ensures
            final(c).wf(),
            final(c).n() == old(c).n(),
            final(c).wires() >= old(c).wires(),
            final(c).rounds() == old(c).rounds(),
            r.lives_in(final(c)),
            r.clear(final(c)) == (a.clear(old(c)) != b.clear(old(c))),
            old(c).wire_public(a.wire_view()) && old(c).wire_public(b.wire_view())
                ==> final(c).wire_public(r.wire_view()),
            forall|u: int| 0 <= u < old(c).wires() ==> final(c).clear(u) == old(c).clear(u),
    {
        let w = c.xor(a.wire, b.wire);
        Bool { wire: w }
    }

    /// AND: the one gate that needs the network; queued until the next
    /// round unless both operands are public.
    pub fn and(c: &mut Cluster, a: &Bool, b: &Bool) -> (r: Bool)
        requires
            old(c).wf(),
            a.lives_in(old(c)),
            b.lives_in(old(c)),
        ensures
            final(c).wf(),
            final(c).n() == old(c).n(),
            final(c).wires() >= old(c).wires(),
            final(c).rounds() == old(c).rounds(),
            r.lives_in(final(c)),
            r.clear(final(c)) == (a.clear(old(c)) && b.clear(old(c))),
            old(c).wire_public(a.wire_view()) && old(c).wire_public(b.wire_view())
                ==> final(c).wire_public(r.wire_view()),
            forall|u: int| 0 <= u < old(c).wires() ==> final(c).clear(u) == old(c).clear(u),
    {
        let w = c.and(a.wire, b.wire);
        Bool { wire: w }
    }

    /// NOT, as XOR with the constant true.
    pub fn not(c: &mut Cluster, a: &Bool) -> (r: Bool)
        requires
            old(c).wf(),
            a.lives_in(old(c)),
        ensures
            final(c).wf(),
            final(c).n() == old(c).n(),
            final(c).wires() >= old(c).wires(),
            final(c).rounds() == old(c).rounds(),
            r.lives_in(final(c)),
            r.clear(final(c)) == !a.clear(old(c)),
            forall|u: int| 0 <= u < old(c).wires() ==> final(c).clear(u) == old(c).clear(u),
    {
        let t = Bool::constant(c, true);
        Bool::xor(c, a, &t)
    }

    /// OR, as `xor(and(a, b), xor(a, b))`.
    pub fn or(c: &mut Cluster, a: &Bool, b: &Bool) -> (r: Bool)
        requires
            old(c).wf(),
            a.lives_in(old(c)),
            b.lives_in(old(c)),
        ensures
            final(c).wf(),
            final(c).n() == old(c).n(),
            final(c).wires() >= old(c).wires(),
            final(c).rounds() == old(c).rounds(),
            r.lives_in(final(c)),
            r.clear(final(c)) == (a.clear(old(c)) || b.clear(old(c))),
            forall|u: int| 0 <= u < old(c).wires() ==> final(c).clear(u) == old(c).clear(u),
    {
        let ab = Bool::and(c, a, b);
        let axb = Bool::xor(c, a, b);
        Bool::xor(c, &ab, &axb)
    }

    /// MUX, as `xor(b, and(g, xor(a, b)))`: the guard's cleartext picks
    /// `a` when true and `b` when false.
    pub fn mux(c: &mut Cluster, g: &Bool, a: &Bool, b: &Bool) -> (r: Bool)
        requires
            old(c).wf(),
            g.lives_in(old(c)),
            a.lives_in(old(c)),
            b.lives_in(old(c)),
        ensures
            final(c).wf(),
            final(c).n() == old(c).n(),
            final(c).wires() >= old(c).wires(),
            final(c).rounds() == old(c).rounds(),
            r.lives_in(final(c)),
            r.clear(final(c)) == if g.clear(old(c)) {
                a.clear(old(c))
            } else {
                b.clear(old(c))
            },
            forall|u: int| 0 <= u < old(c).wires() ==> final(c).clear(u) == old(c).clear(u),
    {
        let axb = Bool::xor(c, a, b);
        let gaxb = Bool::and(c, g, &axb);
        Bool::xor(c, b, &gaxb)
    }

    /// Equality, as negated XOR.
    pub fn eq(c: &mut Cluster, a: &Bool, b: &Bool) -> (r: Bool)
        requires
            old(c).wf(),
            a.lives_in(old(c)),
            b.lives_in(old(c)),
        ensures
            final(c).wf(),
            final(c).n() == old(c).n(),
            final(c).wires() >= old(c).wires(),
            final(c).rounds() == old(c).rounds(),
            r.lives_in(final(c)),
            r.clear(final(c)) == (a.clear(old(c)) == b.clear(old(c))),
            forall|u: int| 0 <= u < old(c).wires() ==> final(c).clear(u) == old(c).clear(u),
    {
        let axb = Bool::xor(c, a, b);
        Bool::not(c, &axb)
    }

    /// The cleartext of this wire, forcing one synchronized round when
    /// it is still pending; a public wire costs no round.
    pub fn get(c: &mut Cluster, v: &Bool) -> (r: bool)
        requires
            old(c).wf(),
            v.lives_in(old(c)),
        ensures
            final(c).wf(),
            final(c).n() == old(c).n(),
            final(c).wires() == old(c).wires(),
            r == v.clear(old(c)),
            old(c).wire_public(v.wire_view()) ==> final(c).rounds() == old(c).rounds(),
            forall|u: int| 0 <= u < old(c).wires() ==> final(c).clear(u) == old(c).clear(u),
    {
        c.get(v.wire)
    }
}

} // verus!
