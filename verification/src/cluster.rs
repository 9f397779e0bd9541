//! An in-process harness that runs every party of one session in
//! lockstep, standing in for the networked evaluation engine. It makes
//! the protocol's central discipline — all parties submit the same gate
//! sequence, in the same order — an invariant that is enforced by
//! construction and carried in proofs, and it gives each wire a
//! cleartext meaning: the XOR, across parties, of the parties' shares.

use vstd::prelude::*;

verus! {

use crate::Error;
use crate::bitseq::BitVec;
use crate::protocol::{
    Protocol,
    CachedBool,
    BoolExpr,
    arena_wf,
    is_concrete,
    public_val,
    is_share,
    is_gate,
    share_val,
    msg_bits,
    share_index,
    resolve,
    resolved_slot,
    xor_slot,
    and_slot,
    lemma_msg_bits_mono,
};
use crate::sharing::{fold_bit, views_of};

/// The XOR of a string of bits, folded from the back.
pub open spec fn xor_seq(s: Seq<bool>) -> bool
    decreases s.len(),
{
    if s.len() == 0 {
        false
    } else {
        xor_seq(s.drop_last()) != s.last()
    }
}

/// The parties' share bits for one wire, in party order.
pub open spec fn share_col(arenas: Seq<Seq<CachedBool>>, w: int) -> Seq<bool> {
    Seq::new(arenas.len(), |p: int| share_val(arenas[p][w]))
}

/// Whether two parties' caches for one wire correlate: public wires
/// carry the same bit, gates point at the same operands, and input
/// shares may differ freely.
pub open spec fn slot_match(c0: CachedBool, cp: CachedBool) -> bool {
    match (c0, cp) {
        (CachedBool::Constant(a), CachedBool::Constant(b)) => a == b,
        (CachedBool::Value(a), CachedBool::Value(b)) => a == b,
        (CachedBool::Expr(BoolExpr::Share(_)), CachedBool::Expr(BoolExpr::Share(_))) => true,
        (CachedBool::Expr(BoolExpr::Xor(i, j)), CachedBool::Expr(BoolExpr::Xor(i2, j2))) => i == i2
            && j == j2,
        (CachedBool::Expr(BoolExpr::And(i, j)), CachedBool::Expr(BoolExpr::And(i2, j2))) => i == i2
            && j == j2,
        _ => false,
    }
}

/// The lockstep invariant over all parties' arenas: equal lengths,
/// wire-for-wire correlation, and gates pointing backwards.
pub open spec fn arenas_wf(arenas: Seq<Seq<CachedBool>>) -> bool {
    &&& arenas.len() >= 1
    &&& forall|p: int| 0 <= p < arenas.len() ==> (#[trigger] arenas[p]).len() == arenas[0].len()
    &&& forall|p: int, w: int|
        0 <= p < arenas.len() && 0 <= w < arenas[0].len() ==> slot_match(
            arenas[0][w],
            #[trigger] arenas[p][w],
        )
    &&& arena_wf(arenas[0])
}

/// The cleartext a wire carries: the bit of a public wire, the XOR over
/// parties of an input wire's shares, and a pending gate's operation
/// over its operands' cleartexts.
pub open spec fn wire_clear(arenas: Seq<Seq<CachedBool>>, w: int) -> bool
    decreases w,
{
    match arenas[0][w] {
        CachedBool::Constant(c) => c,
        CachedBool::Value(v) => v,
        CachedBool::Expr(BoolExpr::Share(_)) => xor_seq(share_col(arenas, w)),
        CachedBool::Expr(BoolExpr::Xor(i, j)) => if i < w && j < w {
            wire_clear(arenas, i as int) != wire_clear(arenas, j as int)
        } else {
            false
        },
        CachedBool::Expr(BoolExpr::And(i, j)) => if i < w && j < w {
            wire_clear(arenas, i as int) && wire_clear(arenas, j as int)
        } else {
            false
        },
    }
}

/// XOR-folding can also peel the front.
pub proof fn lemma_xor_seq_front(s: Seq<bool>)
    requires
        s.len() > 0,
    ensures
        xor_seq(s) == (s[0] != xor_seq(s.skip(1))),
    decreases s.len(),
{
    if s.len() == 1 {
        assert(s.drop_last() =~= Seq::<bool>::empty());
        assert(s.skip(1) =~= Seq::<bool>::empty());
        assert(xor_seq(s) == (xor_seq(s.drop_last()) != s.last()));
    } else {
        lemma_xor_seq_front(s.drop_last());
        assert(s.skip(1).drop_last() =~= s.drop_last().skip(1));
        assert(xor_seq(s) == (xor_seq(s.drop_last()) != s.last()));
        assert(xor_seq(s.skip(1)) == (xor_seq(s.skip(1).drop_last()) != s.skip(1).last()));
        assert(s.skip(1).last() == s.last());
        assert(s.drop_last()[0] == s[0]);
    }
}

/// Flipping the first bit flips the fold.
pub proof fn lemma_xor_seq_flip_first(s: Seq<bool>, t: Seq<bool>, c: bool)
    requires
        s.len() == t.len(),
        s.len() >= 1,
        t[0] == (s[0] != c),
        forall|p: int| 1 <= p < s.len() ==> s[p] == t[p],
    ensures
        xor_seq(t) == (xor_seq(s) != c),
{
    lemma_xor_seq_front(s);
    lemma_xor_seq_front(t);
    assert(t.skip(1) =~= s.skip(1));
}

/// The fold of a pointwise XOR is the XOR of the folds.
pub proof fn lemma_xor_seq_pointwise(s: Seq<bool>, t: Seq<bool>, u: Seq<bool>)
    requires
        s.len() == t.len(),
        s.len() == u.len(),
        forall|p: int| 0 <= p < s.len() ==> u[p] == (s[p] != t[p]),
    ensures
        xor_seq(u) == (xor_seq(s) != xor_seq(t)),
    decreases s.len(),
{
    if s.len() > 0 {
        lemma_xor_seq_pointwise(s.drop_last(), t.drop_last(), u.drop_last());
        assert(xor_seq(s) == (xor_seq(s.drop_last()) != s.last()));
        assert(xor_seq(t) == (xor_seq(t.drop_last()) != t.last()));
        assert(xor_seq(u) == (xor_seq(u.drop_last()) != u.last()));
    }
}

/// Folding a column of a message family is folding the column's bits.
pub proof fn lemma_fold_bit_col(msgs: Seq<Seq<bool>>, k: int, col: Seq<bool>)
    requires
        col.len() == msgs.len(),
        forall|p: int| 0 <= p < msgs.len() ==> col[p] == (#[trigger] msgs[p])[k],
    ensures
        fold_bit(msgs, k) == xor_seq(col),
    decreases msgs.len(),
{
    if msgs.len() == 0 {
        assert(xor_seq(col) == false);
    } else {
        lemma_fold_bit_col(msgs.skip(1), k, col.skip(1));
        lemma_xor_seq_front(col);
        assert(fold_bit(msgs, k) == (msgs[0][k] != fold_bit(msgs.skip(1), k)));
        assert(col[0] == msgs[0][k]);
    }
}

/// Correlated arenas produce equally long round messages.
pub proof fn lemma_msg_bits_match(a0: Seq<CachedBool>, ap: Seq<CachedBool>)
    requires
        a0.len() == ap.len(),
        forall|w: int| 0 <= w < a0.len() ==> slot_match(a0[w], #[trigger] ap[w]),
    ensures
        msg_bits(a0).len() == msg_bits(ap).len(),
    decreases a0.len(),
{
    if a0.len() > 0 {
        assert(forall|w: int|
            0 <= w < a0.drop_last().len() ==> slot_match(
                a0.drop_last()[w],
                #[trigger] ap.drop_last()[w],
            ));
        lemma_msg_bits_match(a0.drop_last(), ap.drop_last());
        assert(msg_bits(a0) == msg_bits(a0.drop_last()) + (if is_share(a0.last()) {
            seq![share_val(a0.last())]
        } else {
            Seq::<bool>::empty()
        }));
        assert(msg_bits(ap) == msg_bits(ap.drop_last()) + (if is_share(ap.last()) {
            seq![share_val(ap.last())]
        } else {
            Seq::<bool>::empty()
        }));
        assert(slot_match(a0.last(), ap.last()));
        assert(is_share(a0.last()) == is_share(ap.last()));
    }
}

/// A prefix of the arena contributes a prefix of the round message.
pub proof fn lemma_msg_bits_prefix(arena: Seq<CachedBool>, u: int)
    requires
        0 <= u <= arena.len(),
    ensures
        msg_bits(arena.take(u)).len() <= msg_bits(arena).len(),
        msg_bits(arena).take(msg_bits(arena.take(u)).len() as int) =~= msg_bits(arena.take(u)),
    decreases arena.len(),
{
    lemma_msg_bits_mono(arena, u, arena.len() as int);
    assert(arena.take(arena.len() as int) =~= arena);
    if u == arena.len() {
        assert(arena.take(u) =~= arena);
        assert(msg_bits(arena).take(msg_bits(arena).len() as int) =~= msg_bits(arena));
    } else {
        let dl = arena.drop_last();
        assert(arena.take(u) =~= dl.take(u));
        lemma_msg_bits_prefix(dl, u);
        assert(msg_bits(arena) == msg_bits(dl) + (if is_share(arena.last()) {
            seq![share_val(arena.last())]
        } else {
            Seq::<bool>::empty()
        }));
        let l = msg_bits(dl.take(u)).len() as int;
        assert(msg_bits(arena).take(l) =~= msg_bits(dl).take(l));
    }
}

/// An input-share wire's bit sits in the round message at its share
/// index.
pub proof fn lemma_msg_bit_at(arena: Seq<CachedBool>, w: int)
    requires
        0 <= w < arena.len(),
        is_share(arena[w]),
    ensures
        0 <= share_index(arena, w),
        share_index(arena, w) < msg_bits(arena).len(),
        msg_bits(arena)[share_index(arena, w)] == share_val(arena[w]),
{
    let k = share_index(arena, w);
    let t = arena.take(w + 1);
    assert(t.drop_last() =~= arena.take(w));
    assert(t.last() == arena[w]);
    assert(msg_bits(t) == msg_bits(t.drop_last()) + (if is_share(t.last()) {
        seq![share_val(t.last())]
    } else {
        Seq::<bool>::empty()
    }));
    assert(msg_bits(t)[k] == share_val(arena[w]));
    lemma_msg_bits_prefix(arena, w + 1);
    assert(msg_bits(arena).take(msg_bits(t).len() as int)[k] == msg_bits(arena)[k]);
}

/// Correlated prefixes give every party the same share index for a wire.
pub proof fn lemma_share_index_match(a0: Seq<CachedBool>, ap: Seq<CachedBool>, w: int)
    requires
        a0.len() == ap.len(),
        0 <= w <= a0.len(),
        forall|v: int| 0 <= v < a0.len() ==> slot_match(a0[v], #[trigger] ap[v]),
    ensures
        share_index(a0, w) == share_index(ap, w),
{
    assert(forall|v: int|
        0 <= v < w ==> slot_match(a0.take(w)[v], #[trigger] ap.take(w)[v]));
    lemma_msg_bits_match(a0.take(w), ap.take(w));
}

/// The heart of the round: with every party's true message in hand, what
/// any one party resolves a wire to is exactly the wire's cleartext.
pub proof fn lemma_resolve_clear(
    arenas: Seq<Seq<CachedBool>>,
    msgs: Seq<Seq<bool>>,
    q: int,
    w: int,
)
    requires
        arenas_wf(arenas),
        msgs.len() == arenas.len(),
        forall|p: int| 0 <= p < arenas.len() ==> msgs[p] == msg_bits(#[trigger] arenas[p]),
        0 <= q < arenas.len(),
        0 <= w < arenas[0].len(),
    ensures
        resolve(arenas[q], msgs, w) == wire_clear(arenas, w),
    decreases w,
{
    assert(slot_match(arenas[0][w], arenas[q][w]));
    match arenas[q][w] {
        CachedBool::Constant(c) => {
            assert(resolve(arenas[q], msgs, w) == c);
        },
        CachedBool::Value(v) => {
            assert(resolve(arenas[q], msgs, w) == v);
        },
        CachedBool::Expr(BoolExpr::Share(_)) => {
            let k = share_index(arenas[q], w);
            assert(resolve(arenas[q], msgs, w) == fold_bit(msgs, k));
            let col = share_col(arenas, w);
            assert forall|p: int| 0 <= p < msgs.len() implies col[p] == (#[trigger] msgs[p])[k] by {
                assert(slot_match(arenas[0][w], arenas[p][w]));
                assert(is_share(arenas[p][w]));
                lemma_share_index_match(arenas[q], arenas[p], w);
                lemma_msg_bit_at(arenas[p], w);
            }
            lemma_fold_bit_col(msgs, k, col);
        },
        CachedBool::Expr(BoolExpr::Xor(i, j)) => {
            assert(arenas[0][w] == CachedBool::Expr(BoolExpr::Xor(i, j)));
            assert(i < w && j < w);
            lemma_resolve_clear(arenas, msgs, q, i as int);
            lemma_resolve_clear(arenas, msgs, q, j as int);
            assert(resolve(arenas[q], msgs, w) == (resolve(arenas[q], msgs, i as int) != resolve(
                arenas[q],
                msgs,
                j as int,
            )));
            assert(wire_clear(arenas, w) == (wire_clear(arenas, i as int) != wire_clear(
                arenas,
                j as int,
            )));
        },
        CachedBool::Expr(BoolExpr::And(i, j)) => {
            assert(arenas[0][w] == CachedBool::Expr(BoolExpr::And(i, j)));
            assert(i < w && j < w);
            lemma_resolve_clear(arenas, msgs, q, i as int);
            lemma_resolve_clear(arenas, msgs, q, j as int);
            assert(resolve(arenas[q], msgs, w) == (resolve(arenas[q], msgs, i as int) && resolve(
                arenas[q],
                msgs,
                j as int,
            )));
            assert(wire_clear(arenas, w) == (wire_clear(arenas, i as int) && wire_clear(
                arenas,
                j as int,
            )));
        },
    }
}

/// Every party of one session, run in lockstep within this process.
/// Each operation submits the same gate to every party, so the arenas
/// stay correlated wire for wire; a round exchanges the parties' pending
/// share bits and settles every wire.
pub struct Cluster {
    parties: Vec<Protocol>,
    rounds_done: u64,
}

impl Cluster {
    /// All parties' arenas, in party order.
    pub closed spec fn arenas(&self) -> Seq<Seq<CachedBool>> {
        self.parties@.map_values(|pr: Protocol| pr.arena_view())
    }

    /// How many parties take part.
    pub closed spec fn n(&self) -> int {
        self.parties@.len() as int
    }

    /// How many wires each arena holds.
    pub closed spec fn wires(&self) -> int {
        self.arenas()[0].len() as int
    }

    /// How many synchronized rounds this session has run.
    pub closed spec fn rounds(&self) -> int {
        self.rounds_done as int
    }

    /// How many synchronized rounds this session has run.
    pub fn rounds_run(&self) -> (r: u64)
        ensures
            r == self.rounds(),
    {
        self.rounds_done
    }

    /// The lockstep invariant, plus each party knowing its place.
    pub closed spec fn wf(&self) -> bool {
        &&& arenas_wf(self.arenas())
        &&& forall|p: int|
            0 <= p < self.n() ==> (#[trigger] self.parties@[p]).id_view() == p
                && self.parties@[p].n_view() == self.n()
    }

    /// The cleartext on a wire: what the parties' shares reconstruct to.
    pub closed spec fn clear(&self, w: int) -> bool {
        wire_clear(self.arenas(), w)
    }

    /// Whether a wire is settled: publicly known without a round.
    pub closed spec fn wire_public(&self, w: int) -> bool {
        is_concrete(self.arenas()[0][w])
    }

    /// A well-formed session has at least one party.
    pub proof fn lemma_wf_min(&self)
        requires
            self.wf(),
        ensures
            self.n() >= 1,
    {
    }

    /// A fresh session of `n_parties` parties with empty arenas.
    pub fn new(n_parties: usize) -> (r: Cluster)
        requires
            n_parties >= 1,
        ensures
            r.wf(),
            r.n() == n_parties,
            r.wires() == 0,
            r.rounds() == 0,
    {
        let mut parties: Vec<Protocol> = Vec::new();
        let mut p: usize = 0;
        while p < n_parties
            invariant
                p <= n_parties,
                parties@.len() == p,
                forall|q: int|
                    0 <= q < p ==> (#[trigger] parties@[q]).id_view() == q
                        && parties@[q].n_view() == n_parties && parties@[q].arena_view()
                        =~= Seq::<CachedBool>::empty(),
            decreases n_parties - p,
        {
            parties.push(Protocol::new(p, n_parties));
            p = p + 1;
        }
        let r = Cluster { parties, rounds_done: 0 };
        proof {
            assert forall|q: int| 0 <= q < r.arenas().len() implies (#[trigger] r.arenas()[q]).len()
                == r.arenas()[0].len() by {
                assert(r.arenas()[q] == r.parties@[q].arena_view());
            }
        }
        r
    }

    pub fn n_parties(&self) -> (r: usize)
        requires
            self.wf(),
        ensures
            r == self.n(),
    {
        self.parties.len()
    }

    pub fn wire_count(&self) -> (r: usize)
        requires
            self.wf(),
        ensures
            r == self.wires(),
    {
        proof {
            assert(self.arenas()[0] == self.parties@[0].arena_view());
        }
        self.parties[0].wire_count()
    }

    /// Submit a publicly known bit to every party; no round is needed,
    /// then or later, for this wire.
    pub fn constant(&mut self, value: bool) -> (w: usize)
        requires
            old(self).wf(),
        ensures
            final(self).wf(),
            final(self).n() == old(self).n(),
            w == old(self).wires(),
            final(self).wires() == old(self).wires() + 1,
            final(self).rounds() == old(self).rounds(),
            final(self).clear(w as int) == value,
            final(self).wire_public(w as int),
            forall|u: int| 0 <= u < w ==> final(self).clear(u) == old(self).clear(u),
    {
        let ghost op = self.parties@;
        let ghost a1 = self.arenas();
        let n = self.parties.len();
        let w = self.wire_count();
        let mut p: usize = 0;
        while p < n
            invariant
                p <= n,
                self.parties@.len() == n,
                op.len() == n,
                self.rounds() == old(self).rounds(),
                forall|q: int|
                    0 <= q < p ==> (#[trigger] self.parties@[q]).arena_view() == op[q].arena_view().push(
                        CachedBool::Constant(value),
                    ) && self.parties@[q].id_view() == op[q].id_view()
                        && self.parties@[q].n_view() == op[q].n_view(),
                forall|q: int| p <= q < n ==> #[trigger] self.parties@[q] == op[q],
            decreases n - p,
        {
            self.parties[p].bool_constant(value);
            p = p + 1;
        }
        proof {
            self.lemma_push_common(a1, op, CachedBool::Constant(value));
            assert(wire_clear(self.arenas(), w as int) == value);
        }
        w
    }

    /// Submit each party's share of one secret input bit, in party
    /// order; the cleartext is the XOR of the shares.
    pub fn input(&mut self, shares: &Vec<bool>) -> (w: usize)
        requires
            old(self).wf(),
            shares@.len() == old(self).n(),
        ensures
            final(self).wf(),
            final(self).n() == old(self).n(),
            w == old(self).wires(),
            final(self).wires() == old(self).wires() + 1,
            final(self).rounds() == old(self).rounds(),
            final(self).clear(w as int) == xor_seq(shares@),
            forall|u: int| 0 <= u < w ==> final(self).clear(u) == old(self).clear(u),
    {
        let ghost op = self.parties@;
        let ghost a1 = self.arenas();
        let n = self.parties.len();
        let w = self.wire_count();
        let mut p: usize = 0;
        while p < n
            invariant
                p <= n,
                self.parties@.len() == n,
                op.len() == n,
                self.rounds() == old(self).rounds(),
                shares@.len() == n,
                forall|q: int|
                    0 <= q < p ==> (#[trigger] self.parties@[q]).arena_view() == op[q].arena_view().push(
                        CachedBool::Expr(BoolExpr::Share(shares@[q])),
                    ) && self.parties@[q].id_view() == op[q].id_view()
                        && self.parties@[q].n_view() == op[q].n_view(),
                forall|q: int| p <= q < n ==> #[trigger] self.parties@[q] == op[q],
            decreases n - p,
        {
            let s = shares[p];
            self.parties[p].bool_share(s);
            p = p + 1;
        }
        proof {
            let a2 = self.arenas();
            let slots = Seq::new(n as nat, |q: int| CachedBool::Expr(BoolExpr::Share(shares@[q])));
            assert forall|q: int| 0 <= q < n implies #[trigger] a2[q] == a1[q].push(slots[q]) by {
                assert(a2[q] == self.parties@[q].arena_view());
                assert(a1[q] == op[q].arena_view());
            }
            lemma_wf_after_push(a1, a2, slots);
            assert(share_col(a2, w as int) =~= shares@);
            assert(wire_clear(a2, w as int) == xor_seq(share_col(a2, w as int)));
        }
        w
    }

    /// XOR two wires for every party; free, and exact on cleartexts:
    /// the new wire carries the XOR of the operands' cleartexts.
    pub fn xor(&mut self, a: usize, b: usize) -> (w: usize)
        requires
            old(self).wf(),
            a < old(self).wires(),
            b < old(self).wires(),
        ensures
            final(self).wf(),
            final(self).n() == old(self).n(),
            w == old(self).wires(),
            final(self).wires() == old(self).wires() + 1,
            final(self).rounds() == old(self).rounds(),
            final(self).clear(w as int) == (old(self).clear(a as int) != old(self).clear(b as int)),
            old(self).wire_public(a as int) && old(self).wire_public(b as int)
                ==> final(self).wire_public(w as int),
            forall|u: int| 0 <= u < w ==> final(self).clear(u) == old(self).clear(u),
    {
        let ghost op = self.parties@;
        let ghost a1 = self.arenas();
        let n = self.parties.len();
        let w = self.wire_count();
        proof {
            assert forall|q: int| 0 <= q < n implies (#[trigger] op[q]).arena_view().len() > a
                && op[q].arena_view().len() > b by {
                assert(self.arenas()[q] == op[q].arena_view());
                assert(self.arenas()[q].len() == self.arenas()[0].len());
            }
        }
        let mut p: usize = 0;
        while p < n
            invariant
                p <= n,
                self.parties@.len() == n,
                op.len() == n,
                self.rounds() == old(self).rounds(),
                forall|q: int| 0 <= q < n ==> (#[trigger] op[q]).arena_view().len() > a
                    && op[q].arena_view().len() > b,
                forall|q: int|
                    0 <= q < p ==> (#[trigger] self.parties@[q]).arena_view() == op[q].arena_view().push(
                        xor_slot(
                            op[q].arena_view()[a as int],
                            op[q].arena_view()[b as int],
                            a,
                            b,
                            op[q].id_view() == 0,
                        ),
                    ) && self.parties@[q].id_view() == op[q].id_view()
                        && self.parties@[q].n_view() == op[q].n_view(),
                forall|q: int| p <= q < n ==> #[trigger] self.parties@[q] == op[q],
            decreases n - p,
        {
            self.parties[p].bool_xor(a, b);
            p = p + 1;
        }
        proof {
            let a2 = self.arenas();
            let slots = Seq::new(
                n as nat,
                |q: int| xor_slot(a1[q][a as int], a1[q][b as int], a, b, q == 0),
            );
            assert forall|q: int| 0 <= q < n implies #[trigger] a2[q] == a1[q].push(slots[q]) by {
                assert(a2[q] == self.parties@[q].arena_view());
                assert(a1[q] == op[q].arena_view());
                assert(op[q].id_view() == q);
            }
            let c0a = a1[0][a as int];
            let c0b = a1[0][b as int];
            assert forall|q: int| 0 <= q < n implies slot_match(slots[0], #[trigger] slots[q]) by {
                assert(slot_match(c0a, a1[q][a as int]));
                assert(slot_match(c0b, a1[q][b as int]));
            }
            lemma_wf_after_push(a1, a2, slots);
            let wi = w as int;
            if is_concrete(c0a) && is_concrete(c0b) {
                assert(a2[0][wi] == CachedBool::Constant(public_val(c0a) != public_val(c0b)));
                assert(wire_clear(a2, wi) == (public_val(c0a) != public_val(c0b)));
                lemma_clear_concrete(a1, a as int);
                lemma_clear_concrete(a1, b as int);
            } else if is_concrete(c0a) && is_share(c0b) {
                let colb = share_col(a1, b as int);
                let col2 = share_col(a2, wi);
                assert forall|q: int| 0 <= q < n implies col2[q] == share_val(
                    #[trigger] slots[q],
                ) by {
                    assert(a2[q][wi] == slots[q]);
                }
                assert(col2[0] == (colb[0] != public_val(c0a)));
                assert forall|q: int| 1 <= q < n implies col2[q] == colb[q] by {
                    assert(slot_match(c0a, a1[q][a as int]));
                    assert(slot_match(c0b, a1[q][b as int]));
                }
                lemma_xor_seq_flip_first(colb, col2, public_val(c0a));
                assert(wire_clear(a2, wi) == xor_seq(col2));
                assert(wire_clear(a1, b as int) == xor_seq(colb));
                lemma_clear_concrete(a1, a as int);
            } else if is_share(c0a) && is_concrete(c0b) {
                let cola = share_col(a1, a as int);
                let col2 = share_col(a2, wi);
                assert forall|q: int| 0 <= q < n implies col2[q] == share_val(
                    #[trigger] slots[q],
                ) by {
                    assert(a2[q][wi] == slots[q]);
                }
                assert(col2[0] == (cola[0] != public_val(c0b)));
                assert forall|q: int| 1 <= q < n implies col2[q] == cola[q] by {
                    assert(slot_match(c0a, a1[q][a as int]));
                    assert(slot_match(c0b, a1[q][b as int]));
                }
                lemma_xor_seq_flip_first(cola, col2, public_val(c0b));
                assert(wire_clear(a2, wi) == xor_seq(col2));
                assert(wire_clear(a1, a as int) == xor_seq(cola));
                lemma_clear_concrete(a1, b as int);
            } else if is_share(c0a) && is_share(c0b) {
                let cola = share_col(a1, a as int);
                let colb = share_col(a1, b as int);
                let col2 = share_col(a2, wi);
                assert forall|q: int| 0 <= q < n implies col2[q] == (cola[q] != colb[q]) by {
                    assert(a2[q][wi] == slots[q]);
                    assert(slot_match(c0a, a1[q][a as int]));
                    assert(slot_match(c0b, a1[q][b as int]));
                }
                lemma_xor_seq_pointwise(cola, colb, col2);
                assert(wire_clear(a2, wi) == xor_seq(col2));
                assert(wire_clear(a1, a as int) == xor_seq(cola));
                assert(wire_clear(a1, b as int) == xor_seq(colb));
            } else {
                assert(a2[0][wi] == CachedBool::Expr(BoolExpr::Xor(a, b)));
                assert(wire_clear(a2, wi) == (wire_clear(a2, a as int) != wire_clear(
                    a2,
                    b as int,
                )));
            }
        }
        w
    }

    /// AND two wires for every party; queued for the next round unless
    /// both operands are public, and exact on cleartexts either way.
    pub fn and(&mut self, a: usize, b: usize) -> (w: usize)
        requires
            old(self).wf(),
            a < old(self).wires(),
            b < old(self).wires(),
        ensures
            final(self).wf(),
            final(self).n() == old(self).n(),
            w == old(self).wires(),
            final(self).wires() == old(self).wires() + 1,
            final(self).rounds() == old(self).rounds(),
            final(self).clear(w as int) == (old(self).clear(a as int) && old(self).clear(b as int)),
            old(self).wire_public(a as int) && old(self).wire_public(b as int)
                ==> final(self).wire_public(w as int),
            forall|u: int| 0 <= u < w ==> final(self).clear(u) == old(self).clear(u),
    {
        let ghost op = self.parties@;
        let ghost a1 = self.arenas();
        let n = self.parties.len();
        let w = self.wire_count();
        proof {
            assert forall|q: int| 0 <= q < n implies (#[trigger] op[q]).arena_view().len() > a
                && op[q].arena_view().len() > b by {
                assert(self.arenas()[q] == op[q].arena_view());
                assert(self.arenas()[q].len() == self.arenas()[0].len());
            }
        }
        let mut p: usize = 0;
        while p < n
            invariant
                p <= n,
                self.parties@.len() == n,
                op.len() == n,
                self.rounds() == old(self).rounds(),
                forall|q: int| 0 <= q < n ==> (#[trigger] op[q]).arena_view().len() > a
                    && op[q].arena_view().len() > b,
                forall|q: int|
                    0 <= q < p ==> (#[trigger] self.parties@[q]).arena_view() == op[q].arena_view().push(
                        and_slot(op[q].arena_view()[a as int], op[q].arena_view()[b as int], a, b),
                    ) && self.parties@[q].id_view() == op[q].id_view()
                        && self.parties@[q].n_view() == op[q].n_view(),
                forall|q: int| p <= q < n ==> #[trigger] self.parties@[q] == op[q],
            decreases n - p,
        {
            self.parties[p].bool_and(a, b);
            p = p + 1;
        }
        proof {
            let a2 = self.arenas();
            let slots = Seq::new(n as nat, |q: int| and_slot(a1[q][a as int], a1[q][b as int], a, b));
            assert forall|q: int| 0 <= q < n implies #[trigger] a2[q] == a1[q].push(slots[q]) by {
                assert(a2[q] == self.parties@[q].arena_view());
                assert(a1[q] == op[q].arena_view());
            }
            let c0a = a1[0][a as int];
            let c0b = a1[0][b as int];
            assert forall|q: int| 0 <= q < n implies slot_match(slots[0], #[trigger] slots[q]) by {
                assert(slot_match(c0a, a1[q][a as int]));
                assert(slot_match(c0b, a1[q][b as int]));
            }
            lemma_wf_after_push(a1, a2, slots);
            let wi = w as int;
            if is_concrete(c0a) && is_concrete(c0b) {
                assert(a2[0][wi] == CachedBool::Constant(public_val(c0a) && public_val(c0b)));
                assert(wire_clear(a2, wi) == (public_val(c0a) && public_val(c0b)));
                lemma_clear_concrete(a1, a as int);
                lemma_clear_concrete(a1, b as int);
            } else {
                assert(a2[0][wi] == CachedBool::Expr(BoolExpr::And(a, b)));
                assert(wire_clear(a2, wi) == (wire_clear(a2, a as int) && wire_clear(
                    a2,
                    b as int,
                )));
            }
        }
        w
    }

    /// Run one synchronized round: gather every party's pending share
    /// bits, deliver all messages to all parties, and resolve every wire
    /// to a public value. Cleartexts do not change; every wire becomes
    /// public. Afterwards a fresh building phase begins on the same
    /// arenas.
    pub fn run_round(&mut self)
        requires
            old(self).wf(),
        ensures
            final(self).wf(),
            final(self).n() == old(self).n(),
            final(self).wires() == old(self).wires(),
            forall|u: int| 0 <= u < old(self).wires() ==> final(self).clear(u) == old(self).clear(
                u,
            ),
            forall|u: int| 0 <= u < old(self).wires() ==> final(self).wire_public(u),
            final(self).rounds() == if old(self).rounds() < u64::MAX {
                old(self).rounds() + 1
            } else {
                old(self).rounds()
            },
    {
        if self.rounds_done < u64::MAX {
            self.rounds_done = self.rounds_done + 1;
        }
        let ghost rr = self.rounds();
        let ghost a1 = self.arenas();
        let ghost op = self.parties@;
        let n = self.parties.len();
        proof {
            assert forall|q: int| 0 <= q < n implies #[trigger] a1[q] == op[q].arena_view() by {
                assert(a1[q] == self.parties@[q].arena_view());
            }
        }
        // every party contributes its pending share bits
        let mut msgs: Vec<BitVec> = Vec::new();
        let mut p: usize = 0;
        while p < n
            invariant
                p <= n,
                msgs@.len() == p,
                self.parties@ == op,
                op.len() == n,
                self.rounds() == rr,
                forall|q: int| 0 <= q < p ==> (#[trigger] msgs@[q])@ == msg_bits(op[q].arena_view()),
            decreases n - p,
        {
            let m = self.parties[p].round_msg();
            msgs.push(m);
            p = p + 1;
        }
        let ghost mv = views_of(msgs@);
        proof {
            assert forall|q: int| 0 <= q < n implies #[trigger] mv[q] == msg_bits(a1[q]) by {
                assert(mv[q] == msgs@[q]@);
            }
        }
        // deliver the complete message set to every party
        let mut p: usize = 0;
        while p < n
            invariant
                p <= n,
                self.parties@.len() == n,
                op.len() == n,
                self.rounds() == rr,
                msgs@.len() == n,
                mv == views_of(msgs@),
                a1.len() == n,
                arenas_wf(a1),
                forall|q: int| 0 <= q < n ==> #[trigger] a1[q] == op[q].arena_view(),
                forall|q: int| 0 <= q < n ==> #[trigger] mv[q] == msg_bits(a1[q]),
                forall|q: int|
                    0 <= q < n ==> (#[trigger] op[q]).id_view() == q && op[q].n_view() == n,
                forall|q: int|
                    0 <= q < p ==> (#[trigger] self.parties@[q]).arena_view().len() == a1[q].len()
                        && self.parties@[q].id_view() == q && self.parties@[q].n_view() == n,
                forall|q: int, w: int|
                    0 <= q < p && 0 <= w < a1[q].len() ==> (
                    #[trigger] self.parties@[q].arena_view()[w]) == resolved_slot(a1[q], mv, w),
                forall|q: int| p <= q < n ==> #[trigger] self.parties@[q] == op[q],
            decreases n - p,
        {
            proof {
                // the messages are exactly as long as this party expects
                assert forall|q: int| 0 <= q < n implies (#[trigger] mv[q]).len() == msg_bits(
                    a1[p as int],
                ).len() by {
                    assert(a1[q].len() == a1[0].len());
                    assert(a1[p as int].len() == a1[0].len());
                    lemma_msg_bits_match(a1[0], a1[q]);
                    lemma_msg_bits_match(a1[0], a1[p as int]);
                }
                assert(crate::protocol::arena_wf(a1[p as int])) by {
                    lemma_arena_wf_match(a1, p as int);
                }
                assert forall|q: int| 0 <= q < n implies (#[trigger] msgs@[q])@.len() == msg_bits(
                    a1[p as int],
                ).len() by {
                    assert(msgs@[q]@ == mv[q]);
                }
                assert(op[p as int].arena_view() == a1[p as int]);
                assert(op[p as int].n_view() == n);
            }
            let r = self.parties[p].round_finish(&msgs);
            match r {
                Ok(_) => {},
                Err(_) => {
                    proof {
                        assert(false);
                    }
                },
            }
            p = p + 1;
        }
        proof {
            let a2 = self.arenas();
            assert forall|q: int| 0 <= q < n implies (#[trigger] a2[q]).len() == a1[q].len() by {
                assert(a2[q] == self.parties@[q].arena_view());
            }
            assert forall|q: int, w: int|
                0 <= q < n && 0 <= w < a1[q].len() implies #[trigger] a2[q][w] == resolved_slot(
                a1[q],
                mv,
                w,
            ) by {
                assert(a2[q] == self.parties@[q].arena_view());
            }
            assert forall|q: int, w: int|
                0 <= q < n && 0 <= w < a1[0].len() implies is_concrete(#[trigger] a2[q][w])
                    && public_val(a2[q][w]) == wire_clear(a1, w) by {
                assert(slot_match(a1[0][w], a1[q][w]));
                lemma_resolve_clear(a1, mv, q, w);
                crate::protocol::lemma_resolved_public(a1[q], mv, w);
            }
            assert forall|q: int, w: int|
                0 <= q < n && 0 <= w < a2[0].len() implies slot_match(
                a2[0][w],
                #[trigger] a2[q][w],
            ) by {
                assert(slot_match(a1[0][w], a1[q][w]));
                match a1[0][w] {
                    CachedBool::Constant(_) => {},
                    _ => {
                        assert(a2[0][w] == CachedBool::Value(wire_clear(a1, w)));
                        assert(a2[q][w] == CachedBool::Value(wire_clear(a1, w)));
                    },
                }
            }
            assert(arenas_wf(a2)) by {
                assert(forall|w: int|
                    0 <= w < a2[0].len() ==> is_concrete(#[trigger] a2[0][w]));
            }
            assert forall|u: int| 0 <= u < a1[0].len() implies wire_clear(a2, u) == wire_clear(
                a1,
                u,
            ) by {
                lemma_clear_concrete(a2, u);
            }
        }
    }

    /// The cleartext of a wire, forcing a round when the wire is still
    /// pending; every party would read the same bit.
    pub fn get(&mut self, w: usize) -> (r: bool)
        requires
            old(self).wf(),
            w < old(self).wires(),
        ensures
            final(self).wf(),
            final(self).n() == old(self).n(),
            final(self).wires() == old(self).wires(),
            forall|u: int| 0 <= u < old(self).wires() ==> final(self).clear(u) == old(self).clear(
                u,
            ),
            r == old(self).clear(w as int),
            old(self).wire_public(w as int) ==> final(self).rounds() == old(self).rounds(),
    {
        proof {
            assert(self.arenas()[0] == self.parties@[0].arena_view());
            assert(self.arenas()[0].len() == self.wires());
        }
        let r0 = self.parties[0].try_get(w);
        match r0 {
            Some(v) => {
                proof {
                    lemma_clear_concrete(self.arenas(), w as int);
                }
                v
            },
            None => {
                self.run_round();
                proof {
                    assert(self.arenas()[0] == self.parties@[0].arena_view());
                }
                match self.parties[0].try_get(w) {
                    Some(v) => {
                        proof {
                            lemma_clear_concrete(self.arenas(), w as int);
                        }
                        v
                    },
                    None => {
                        proof {
                            assert(self.wire_public(w as int));
                            assert(is_concrete(self.arenas()[0][w as int]));
                            assert(false);
                        }
                        false
                    },
                }
            },
        }
    }

    /// All parties pushed the same public or share-correlated slot;
    /// derive the new well-formedness and the frame.
    proof fn lemma_push_common(&self, a1: Seq<Seq<CachedBool>>, op: Seq<Protocol>, slot: CachedBool)
        requires
            arenas_wf(a1),
            op.len() == a1.len(),
            self.parties@.len() == a1.len(),
            forall|q: int| 0 <= q < a1.len() ==> a1[q] == (#[trigger] op[q]).arena_view(),
            forall|q: int|
                0 <= q < a1.len() ==> (#[trigger] self.parties@[q]).arena_view() == op[q].arena_view().push(
                    slot,
                ),
            forall|q: int|
                0 <= q < a1.len() ==> (#[trigger] self.parties@[q]).id_view() == op[q].id_view()
                    && self.parties@[q].n_view() == op[q].n_view(),
            !is_gate(slot),
        ensures
            forall|q: int| 0 <= q < a1.len() ==> #[trigger] self.arenas()[q] == a1[q].push(slot),
            arenas_wf(self.arenas()),
            self.wires() == a1[0].len() + 1,
            forall|u: int|
                0 <= u < a1[0].len() ==> wire_clear(self.arenas(), u) == wire_clear(a1, u),
    {
        let a2 = self.arenas();
        assert forall|q: int| 0 <= q < a1.len() implies #[trigger] a2[q] == a1[q].push(slot) by {
            assert(a2[q] == self.parties@[q].arena_view());
        }
        lemma_wf_after_push(a1, a2, Seq::new(a1.len(), |q: int| slot));
    }

}

/// Pushing one correlated slot per party keeps the arenas well formed.
pub proof fn lemma_wf_after_push(
    a1: Seq<Seq<CachedBool>>,
    a2: Seq<Seq<CachedBool>>,
    slots: Seq<CachedBool>,
)
    requires
        arenas_wf(a1),
        a2.len() == a1.len(),
        slots.len() == a1.len(),
        forall|q: int| 0 <= q < a1.len() ==> #[trigger] a2[q] == a1[q].push(slots[q]),
        forall|q: int| 0 <= q < a1.len() ==> slot_match(slots[0], #[trigger] slots[q]),
        match slots[0] {
            CachedBool::Expr(BoolExpr::Xor(i, j)) => i < a1[0].len() && j < a1[0].len(),
            CachedBool::Expr(BoolExpr::And(i, j)) => i < a1[0].len() && j < a1[0].len(),
            _ => true,
        },
    ensures
        arenas_wf(a2),
        a2[0].len() == a1[0].len() + 1,
        forall|u: int| 0 <= u < a1[0].len() ==> wire_clear(a2, u) == wire_clear(a1, u),
{
    let l = a1[0].len() as int;
    assert forall|q: int| 0 <= q < a2.len() implies (#[trigger] a2[q]).len() == a2[0].len() by {
        assert(a1[q].len() == a1[0].len());
    }
    assert forall|q: int, w: int|
        0 <= q < a2.len() && 0 <= w < a2[0].len() implies slot_match(
            a2[0][w],
            #[trigger] a2[q][w],
        ) by {
        if w < l {
            assert(a2[q][w] == a1[q][w]);
            assert(a2[0][w] == a1[0][w]);
            assert(slot_match(a1[0][w], a1[q][w]));
        } else {
            assert(a2[q][w] == slots[q]);
            assert(a2[0][w] == slots[0]);
        }
    }
    assert forall|w: int| 0 <= w < a2[0].len() implies match #[trigger] a2[0][w] {
        CachedBool::Expr(BoolExpr::Xor(i, j)) => i < w && j < w,
        CachedBool::Expr(BoolExpr::And(i, j)) => i < w && j < w,
        _ => true,
    } by {
        if w < l {
            assert(a2[0][w] == a1[0][w]);
            assert(match a1[0][w] {
                CachedBool::Expr(BoolExpr::Xor(i, j)) => i < w && j < w,
                CachedBool::Expr(BoolExpr::And(i, j)) => i < w && j < w,
                _ => true,
            });
        } else {
            assert(a2[0][w] == slots[0]);
        }
    }
    assert forall|u: int| 0 <= u < a1[0].len() implies wire_clear(a2, u) == wire_clear(a1, u) by {
        lemma_clear_frame(a1, a2, u);
    }
}

/// Correlation passes backward-pointing gates from party 0 to each
/// party.
pub proof fn lemma_arena_wf_match(arenas: Seq<Seq<CachedBool>>, q: int)
    requires
        arenas_wf(arenas),
        0 <= q < arenas.len(),
    ensures
        arena_wf(arenas[q]),
{
    assert forall|w: int| 0 <= w < arenas[q].len() implies match #[trigger] arenas[q][w] {
        CachedBool::Expr(BoolExpr::Xor(i, j)) => i < w && j < w,
        CachedBool::Expr(BoolExpr::And(i, j)) => i < w && j < w,
        _ => true,
    } by {
        assert(slot_match(arenas[0][w], arenas[q][w]));
        assert(match arenas[0][w] {
            CachedBool::Expr(BoolExpr::Xor(i, j)) => i < w && j < w,
            CachedBool::Expr(BoolExpr::And(i, j)) => i < w && j < w,
            _ => true,
        });
    }
}

/// A public wire's cleartext is its public bit.
pub proof fn lemma_clear_concrete(arenas: Seq<Seq<CachedBool>>, v: int)
    requires
        arenas.len() >= 1,
        0 <= v < arenas[0].len(),
        is_concrete(arenas[0][v]),
    ensures
        wire_clear(arenas, v) == public_val(arenas[0][v]),
{
    match arenas[0][v] {
        CachedBool::Constant(c) => {
            assert(wire_clear(arenas, v) == c);
        },
        CachedBool::Value(b) => {
            assert(wire_clear(arenas, v) == b);
        },
        CachedBool::Expr(_) => {},
    }
}

/// A wire's cleartext depends only on the caches up to that wire.
pub proof fn lemma_clear_frame(a1: Seq<Seq<CachedBool>>, a2: Seq<Seq<CachedBool>>, u: int)
    requires
        arenas_wf(a1),
        a2.len() == a1.len(),
        0 <= u < a1[0].len(),
        forall|p: int| 0 <= p < a2.len() ==> (#[trigger] a2[p]).len() > u,
        forall|p: int, v: int|
            0 <= p < a1.len() && 0 <= v <= u ==> #[trigger] a2[p][v] == a1[p][v],
    ensures
        wire_clear(a2, u) == wire_clear(a1, u),
    decreases u,
{
    assert(a2[0][u] == a1[0][u]);
    match a1[0][u] {
        CachedBool::Constant(c) => {
            assert(wire_clear(a1, u) == c);
            assert(wire_clear(a2, u) == c);
        },
        CachedBool::Value(v) => {
            assert(wire_clear(a1, u) == v);
            assert(wire_clear(a2, u) == v);
        },
        CachedBool::Expr(BoolExpr::Share(_)) => {
            assert(share_col(a2, u) =~= share_col(a1, u));
            assert(wire_clear(a1, u) == xor_seq(share_col(a1, u)));
            assert(wire_clear(a2, u) == xor_seq(share_col(a2, u)));
        },
        CachedBool::Expr(BoolExpr::Xor(i, j)) => {
            assert(i < u && j < u);
            lemma_clear_frame(a1, a2, i as int);
            lemma_clear_frame(a1, a2, j as int);
            assert(wire_clear(a1, u) == (wire_clear(a1, i as int) != wire_clear(a1, j as int)));
            assert(wire_clear(a2, u) == (wire_clear(a2, i as int) != wire_clear(a2, j as int)));
        },
        CachedBool::Expr(BoolExpr::And(i, j)) => {
            assert(i < u && j < u);
            lemma_clear_frame(a1, a2, i as int);
            lemma_clear_frame(a1, a2, j as int);
            assert(wire_clear(a1, u) == (wire_clear(a1, i as int) && wire_clear(a1, j as int)));
            assert(wire_clear(a2, u) == (wire_clear(a2, i as int) && wire_clear(a2, j as int)));
        },
    }
}

} // verus!
