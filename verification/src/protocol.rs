//! One party's view of the batched circuit-evaluation protocol.
//!
//! A `Protocol` owns an arena of wire caches. Publicly known wires are
//! `Constant` or `Value`; everything else is a pending `Expr`: an input
//! share, or a gate over earlier wires. XOR over known shares is folded
//! on the spot — it is free in this sharing scheme — so only AND gates
//! and input shares ever wait for a round. A round exchanges every
//! party's pending input-share bits, in arena order, and resolves every
//! pending wire to a `Value`. Cross-party correlation rests purely on
//! submission order: all parties must build the same arena, gate for
//! gate.

use vstd::prelude::*;

verus! {

use crate::Error;
use crate::bitseq::BitVec;
use crate::sharing::{fold_bit, views_of};

/// A pending wire expression: this party's input share, or a gate over
/// two earlier wires named by arena index.
#[derive(Clone, Copy, Debug, PartialEq, Eq, Structural)]
pub enum BoolExpr {
    Share(bool),
    Xor(usize, usize),
    And(usize, usize),
}

/// One wire cache: a publicly known constant, a reified public value, or
/// a pending expression. A wire moves from `Expr` to `Value` in a round
/// and never back.
#[derive(Clone, Copy, Debug, PartialEq, Eq, Structural)]
pub enum CachedBool {
    Constant(bool),
    Value(bool),
    Expr(BoolExpr),
}

/// Whether a wire is publicly known.
pub open spec fn is_concrete(c: CachedBool) -> bool {
    c is Constant || c is Value
}

/// The public value of a concrete wire.
pub open spec fn public_val(c: CachedBool) -> bool {
    match c {
        CachedBool::Constant(b) => b,
        CachedBool::Value(b) => b,
        CachedBool::Expr(_) => false,
    }
}

/// Whether a wire is a pending input share, whose share bit is known
/// locally.
pub open spec fn is_share(c: CachedBool) -> bool {
    c matches CachedBool::Expr(BoolExpr::Share(_))
}

/// The local share bit of a pending input share.
pub open spec fn share_val(c: CachedBool) -> bool {
    match c {
        CachedBool::Expr(BoolExpr::Share(s)) => s,
        _ => false,
    }
}

/// Whether a wire is a pending gate, with no bit known locally.
pub open spec fn is_gate(c: CachedBool) -> bool {
    c matches CachedBool::Expr(BoolExpr::Xor(_, _)) || c matches CachedBool::Expr(
        BoolExpr::And(_, _),
    )
}

/// Every gate points at strictly earlier wires.
pub open spec fn arena_wf(arena: Seq<CachedBool>) -> bool {
    forall|w: int|
        0 <= w < arena.len() ==> match #[trigger] arena[w] {
            CachedBool::Expr(BoolExpr::Xor(i, j)) => i < w && j < w,
            CachedBool::Expr(BoolExpr::And(i, j)) => i < w && j < w,
            _ => true,
        }
}

/// The wire a local XOR appends: folded on the spot wherever both
/// operands' bits are known — public with public operands, a share as
/// soon as one operand is a share (party 0 folds public bits into its
/// share) — and a pending gate only when an operand is itself pending.
pub open spec fn xor_slot(
    a: CachedBool,
    b: CachedBool,
    wa: usize,
    wb: usize,
    first_party: bool,
) -> CachedBool {
    if is_concrete(a) && is_concrete(b) {
        CachedBool::Constant(public_val(a) != public_val(b))
    } else if is_concrete(a) && is_share(b) {
        CachedBool::Expr(
            BoolExpr::Share(
                if first_party {
                    share_val(b) != public_val(a)
                } else {
                    share_val(b)
                },
            ),
        )
    } else if is_share(a) && is_concrete(b) {
        CachedBool::Expr(
            BoolExpr::Share(
                if first_party {
                    share_val(a) != public_val(b)
                } else {
                    share_val(a)
                },
            ),
        )
    } else if is_share(a) && is_share(b) {
        CachedBool::Expr(BoolExpr::Share(share_val(a) != share_val(b)))
    } else {
        CachedBool::Expr(BoolExpr::Xor(wa, wb))
    }
}

/// The wire an AND appends: folded only when both operands are public;
/// anything secret waits for a network round.
pub open spec fn and_slot(a: CachedBool, b: CachedBool, wa: usize, wb: usize) -> CachedBool {
    if is_concrete(a) && is_concrete(b) {
        CachedBool::Constant(public_val(a) && public_val(b))
    } else {
        CachedBool::Expr(BoolExpr::And(wa, wb))
    }
}

/// The share bits one party contributes to a round: the bits of its
/// pending input-share wires, in arena order.
pub open spec fn msg_bits(arena: Seq<CachedBool>) -> Seq<bool>
    decreases arena.len(),
{
    if arena.len() == 0 {
        Seq::empty()
    } else {
        msg_bits(arena.drop_last()) + (if is_share(arena.last()) {
            seq![share_val(arena.last())]
        } else {
            Seq::empty()
        })
    }
}

/// How many of the first `w` wires are pending input shares; equally,
/// where wire `w`'s share bit sits in the round message.
pub open spec fn share_index(arena: Seq<CachedBool>, w: int) -> int {
    msg_bits(arena.take(w)).len() as int
}

/// What a pending wire resolves to once every party's round message is
/// in: constants and values keep their bit, an input share becomes the
/// XOR of all parties' message bits at its position, and gates apply to
/// their operands' resolutions.
pub open spec fn resolve(arena: Seq<CachedBool>, msgs: Seq<Seq<bool>>, w: int) -> bool
    decreases w,
{
    match arena[w] {
        CachedBool::Constant(c) => c,
        CachedBool::Value(v) => v,
        CachedBool::Expr(BoolExpr::Share(_)) => fold_bit(msgs, share_index(arena, w)),
        CachedBool::Expr(BoolExpr::Xor(i, j)) => if i < w && j < w {
            resolve(arena, msgs, i as int) != resolve(arena, msgs, j as int)
        } else {
            false
        },
        CachedBool::Expr(BoolExpr::And(i, j)) => if i < w && j < w {
            resolve(arena, msgs, i as int) && resolve(arena, msgs, j as int)
        } else {
            false
        },
    }
}

/// A wire's cache after a round: constants stay constants, everything
/// else holds its resolved public value.
pub open spec fn resolved_slot(arena: Seq<CachedBool>, msgs: Seq<Seq<bool>>, w: int) -> CachedBool {
    match arena[w] {
        CachedBool::Constant(c) => CachedBool::Constant(c),
        _ => CachedBool::Value(resolve(arena, msgs, w)),
    }
}

/// A round message is no longer than the arena.
pub proof fn lemma_msg_bits_len_le(arena: Seq<CachedBool>)
    ensures
        msg_bits(arena).len() <= arena.len(),
    decreases arena.len(),
{
    if arena.len() > 0 {
        lemma_msg_bits_len_le(arena.drop_last());
        assert(msg_bits(arena) == msg_bits(arena.drop_last()) + (if is_share(arena.last()) {
            seq![share_val(arena.last())]
        } else {
            Seq::<bool>::empty()
        }));
    }
}

/// After a round, every wire is public, and its bit is its resolution.
pub proof fn lemma_resolved_public(arena: Seq<CachedBool>, msgs: Seq<Seq<bool>>, v: int)
    requires
        0 <= v < arena.len(),
    ensures
        is_concrete(resolved_slot(arena, msgs, v)),
        public_val(resolved_slot(arena, msgs, v)) == resolve(arena, msgs, v),
{
    match arena[v] {
        CachedBool::Constant(c) => {
            assert(resolve(arena, msgs, v) == c);
        },
        CachedBool::Value(b) => {
            assert(resolve(arena, msgs, v) == b);
        },
        CachedBool::Expr(_) => {
            assert(resolved_slot(arena, msgs, v) == CachedBool::Value(resolve(arena, msgs, v)));
        },
    }
}

/// Longer prefixes contribute at least as many share bits.
pub proof fn lemma_msg_bits_mono(arena: Seq<CachedBool>, u: int, v: int)
    requires
        0 <= u <= v <= arena.len(),
    ensures
        msg_bits(arena.take(u)).len() <= msg_bits(arena.take(v)).len(),
    decreases v - u,
{
    if u < v {
        lemma_msg_bits_mono(arena, u, v - 1);
        let t = arena.take(v);
        assert(t.drop_last() =~= arena.take(v - 1));
        assert(msg_bits(t) == msg_bits(t.drop_last()) + (if is_share(t.last()) {
            seq![share_val(t.last())]
        } else {
            Seq::<bool>::empty()
        }));
    }
}

/// One party's protocol state: its identity, the party count, and the
/// arena of wire caches, appended to in submission order.
pub struct Protocol {
    my_id: usize,
    n_parties: usize,
    arena: Vec<CachedBool>,
}

impl Protocol {
    /// This party's identifier, fixed at construction.
    pub closed spec fn id_view(&self) -> int {
        self.my_id as int
    }

    /// How many parties take part, fixed at construction.
    pub closed spec fn n_view(&self) -> int {
        self.n_parties as int
    }

    /// The arena of wire caches.
    pub closed spec fn arena_view(&self) -> Seq<CachedBool> {
        self.arena@
    }

    /// A fresh session for party `my_id` of `n_parties`, with an empty
    /// arena.
    pub fn new(my_id: usize, n_parties: usize) -> (r: Protocol)
        requires
            1 <= n_parties,
            my_id < n_parties,
        ensures
            r.id_view() == my_id,
            r.n_view() == n_parties,
            r.arena_view() =~= Seq::<CachedBool>::empty(),
    {
        Protocol { my_id, n_parties, arena: Vec::new() }
    }

    pub fn my_id(&self) -> (r: usize)
        ensures
            r == self.id_view(),
    {
        self.my_id
    }

    pub fn n_parties(&self) -> (r: usize)
        ensures
            r == self.n_view(),
    {
        self.n_parties
    }

    pub fn wire_count(&self) -> (r: usize)
        ensures
            r == self.arena_view().len(),
    {
        self.arena.len()
    }

    /// Inject this party's share of a secret input bit; the wire waits
    /// for a round before it can be read.
    pub fn bool_share(&mut self, share: bool) -> (w: usize)
        ensures
            w == old(self).arena_view().len(),
            final(self).arena_view() == old(self).arena_view().push(
                CachedBool::Expr(BoolExpr::Share(share)),
            ),
            final(self).id_view() == old(self).id_view(),
            final(self).n_view() == old(self).n_view(),
    {
        let w = self.arena.len();
        self.arena.push(CachedBool::Expr(BoolExpr::Share(share)));
        w
    }

    /// A publicly known bit: party 0 holds the bit as its share and the
    /// rest hold false, so the XOR over parties reconstructs it with no
    /// round.
    pub fn bool_constant(&mut self, value: bool) -> (w: usize)
        ensures
            w == old(self).arena_view().len(),
            final(self).arena_view() == old(self).arena_view().push(CachedBool::Constant(value)),
            final(self).id_view() == old(self).id_view(),
            final(self).n_view() == old(self).n_view(),
    {
        let w = self.arena.len();
        self.arena.push(CachedBool::Constant(value));
        w
    }

    /// XOR two wires; free, never needing a round of its own.
    pub fn bool_xor(&mut self, a: usize, b: usize) -> (w: usize)
        requires
            a < old(self).arena_view().len(),
            b < old(self).arena_view().len(),
        ensures
            w == old(self).arena_view().len(),
            final(self).arena_view() == old(self).arena_view().push(
                xor_slot(
                    old(self).arena_view()[a as int],
                    old(self).arena_view()[b as int],
                    a,
                    b,
                    old(self).id_view() == 0,
                ),
            ),
            final(self).id_view() == old(self).id_view(),
            final(self).n_view() == old(self).n_view(),
    {
        let w = self.arena.len();
        let ca = self.arena[a];
        let cb = self.arena[b];
        let slot = match (ca, cb) {
            (CachedBool::Expr(ea), CachedBool::Expr(eb)) => match (ea, eb) {
                (BoolExpr::Share(sa), BoolExpr::Share(sb)) => CachedBool::Expr(
                    BoolExpr::Share(sa != sb),
                ),
                _ => CachedBool::Expr(BoolExpr::Xor(a, b)),
            },
            (CachedBool::Expr(ea), _) => match ea {
                BoolExpr::Share(sa) => {
                    let pb = match cb {
                        CachedBool::Constant(v) => v,
                        CachedBool::Value(v) => v,
                        _ => false,
                    };
                    CachedBool::Expr(
                        BoolExpr::Share(
                            if self.my_id == 0 {
                                sa != pb
                            } else {
                                sa
                            },
                        ),
                    )
                },
                _ => CachedBool::Expr(BoolExpr::Xor(a, b)),
            },
            (_, CachedBool::Expr(eb)) => match eb {
                BoolExpr::Share(sb) => {
                    let pa = match ca {
                        CachedBool::Constant(v) => v,
                        CachedBool::Value(v) => v,
                        _ => false,
                    };
                    CachedBool::Expr(
                        BoolExpr::Share(
                            if self.my_id == 0 {
                                sb != pa
                            } else {
                                sb
                            },
                        ),
                    )
                },
                _ => CachedBool::Expr(BoolExpr::Xor(a, b)),
            },
            _ => {
                let pa = match ca {
                    CachedBool::Constant(v) => v,
                    CachedBool::Value(v) => v,
                    _ => false,
                };
                let pb = match cb {
                    CachedBool::Constant(v) => v,
                    CachedBool::Value(v) => v,
                    _ => false,
                };
                CachedBool::Constant(pa != pb)
            },
        };
        self.arena.push(slot);
        w
    }

    /// AND two wires; queued for the next round unless both are public.
    pub fn bool_and(&mut self, a: usize, b: usize) -> (w: usize)
        requires
            a < old(self).arena_view().len(),
            b < old(self).arena_view().len(),
        ensures
            w == old(self).arena_view().len(),
            final(self).arena_view() == old(self).arena_view().push(
                and_slot(
                    old(self).arena_view()[a as int],
                    old(self).arena_view()[b as int],
                    a,
                    b,
                ),
            ),
            final(self).id_view() == old(self).id_view(),
            final(self).n_view() == old(self).n_view(),
    {
        let w = self.arena.len();
        let ca = self.arena[a];
        let cb = self.arena[b];
        let slot = match (ca, cb) {
            (CachedBool::Expr(_), _) => CachedBool::Expr(BoolExpr::And(a, b)),
            (_, CachedBool::Expr(_)) => CachedBool::Expr(BoolExpr::And(a, b)),
            _ => {
                let pa = match ca {
                    CachedBool::Constant(v) => v,
                    CachedBool::Value(v) => v,
                    _ => false,
                };
                let pb = match cb {
                    CachedBool::Constant(v) => v,
                    CachedBool::Value(v) => v,
                    _ => false,
                };
                CachedBool::Constant(pa && pb)
            },
        };
        self.arena.push(slot);
        w
    }

    /// The public bit of a wire, if it has one without a round.
    pub fn try_get(&self, w: usize) -> (r: Option<bool>)
        requires
            w < self.arena_view().len(),
        ensures
            match r {
                Some(v) => is_concrete(self.arena_view()[w as int]) && v == public_val(
                    self.arena_view()[w as int],
                ),
                None => !is_concrete(self.arena_view()[w as int]),
            },
    {
        match self.arena[w] {
            CachedBool::Constant(c) => Some(c),
            CachedBool::Value(v) => Some(v),
            CachedBool::Expr(_) => None,
        }
    }

    /// This party's contribution to the next round: the bits of its
    /// pending input shares, in arena order.
    pub fn round_msg(&self) -> (r: BitVec)
        ensures
            r@ == msg_bits(self.arena_view()),
    {
        let mut out = BitVec::new();
        let mut w: usize = 0;
        let n = self.arena.len();
        proof {
            assert(self.arena_view().take(0) =~= Seq::<CachedBool>::empty());
        }
        while w < n
            invariant
                w <= n,
                n == self.arena_view().len(),
                out@ == msg_bits(self.arena_view().take(w as int)),
            decreases n - w,
        {
            proof {
                let t = self.arena_view().take(w as int + 1);
                assert(t.drop_last() =~= self.arena_view().take(w as int));
                assert(t.last() == self.arena_view()[w as int]);
                assert(msg_bits(t) == msg_bits(t.drop_last()) + (if is_share(t.last()) {
                    seq![share_val(t.last())]
                } else {
                    Seq::<bool>::empty()
                }));
            }
            match self.arena[w] {
                CachedBool::Expr(BoolExpr::Share(s)) => {
                    out.push(s);
                    proof {
                        assert(msg_bits(self.arena_view().take(w as int)).push(
                            share_val(self.arena_view()[w as int]),
                        ) =~= msg_bits(self.arena_view().take(w as int + 1)));
                    }
                },
                _ => {
                    proof {
                        assert(msg_bits(self.arena_view().take(w as int)) =~= msg_bits(
                            self.arena_view().take(w as int + 1),
                        ));
                    }
                },
            }
            w = w + 1;
        }
        proof {
            assert(self.arena_view().take(n as int) =~= self.arena_view());
        }
        out
    }

    /// Complete a round with every party's message, this party's
    /// included, in party order: every pending wire is overwritten with
    /// its resolved public value. Fails, changing nothing, unless there
    /// is exactly one message per party, each exactly as long as this
    /// party's own.
    pub fn round_finish(&mut self, msgs: &Vec<BitVec>) -> (r: Result<(), Error>)
        requires
            arena_wf(old(self).arena_view()),
        ensures
            final(self).id_view() == old(self).id_view(),
            final(self).n_view() == old(self).n_view(),
            r is Ok <==> (msgs@.len() == old(self).n_view() && forall|p: int|
                0 <= p < msgs@.len() ==> (#[trigger] msgs@[p])@.len() == msg_bits(
                    old(self).arena_view(),
                ).len()),
            r is Err ==> final(self).arena_view() == old(self).arena_view() && r == Err::<
                (),
                Error,
            >(Error::BackendError),
            r is Ok ==> final(self).arena_view().len() == old(self).arena_view().len()
                && forall|w: int|
                0 <= w < old(self).arena_view().len() ==> #[trigger] final(self).arena_view()[w]
                    == resolved_slot(old(self).arena_view(), views_of(msgs@), w),
    {
        let ghost orig = self.arena_view();
        let ghost mv = views_of(msgs@);
        // every party must have sent a message of the expected length
        if msgs.len() != self.n_parties {
            return Err(Error::BackendError);
        }
        let own = self.round_msg();
        let expected = own.len();
        let mut p: usize = 0;
        while p < msgs.len()
            invariant
                p <= msgs@.len(),
                expected == msg_bits(self.arena_view()).len(),
                self == old(self),
                forall|q: int| 0 <= q < p ==> (#[trigger] msgs@[q])@.len() == expected,
            decreases msgs@.len() - p,
        {
            let m = &msgs[p];
            if m.len() != expected {
                return Err(Error::BackendError);
            }
            p = p + 1;
        }
        // resolve every wire in arena order; gates only ever point at
        // earlier wires, which are public by the time they are needed
        let n = self.arena.len();
        let mut w: usize = 0;
        let mut k: usize = 0;
        proof {
            assert(orig.take(0) =~= Seq::<CachedBool>::empty());
        }
        while w < n
            invariant
                w <= n,
                n == orig.len(),
                self.arena_view().len() == n,
                self.id_view() == old(self).id_view(),
                self.n_view() == old(self).n_view(),
                arena_wf(orig),
                mv == views_of(msgs@),
                msgs@.len() == old(self).n_view(),
                forall|q: int|
                    0 <= q < msgs@.len() ==> (#[trigger] mv[q]).len() == msg_bits(orig).len(),
                k == share_index(orig, w as int),
                forall|v: int| 0 <= v < w ==> #[trigger] self.arena_view()[v] == resolved_slot(
                    orig,
                    mv,
                    v,
                ),
                forall|v: int| w <= v < n ==> #[trigger] self.arena_view()[v] == orig[v],
            decreases n - w,
        {
            let slot = self.arena[w];
            proof {
                let t = orig.take(w as int + 1);
                assert(t.drop_last() =~= orig.take(w as int));
                assert(t.last() == orig[w as int]);
                assert(msg_bits(t) == msg_bits(t.drop_last()) + (if is_share(t.last()) {
                    seq![share_val(t.last())]
                } else {
                    Seq::<bool>::empty()
                }));
                lemma_msg_bits_mono(orig, w as int + 1, n as int);
                assert(orig.take(n as int) =~= orig);
                lemma_msg_bits_len_le(orig);
            }
            match slot {
                CachedBool::Constant(c) => {
                    proof {
                        assert(resolved_slot(orig, mv, w as int) == CachedBool::Constant(c));
                    }
                },
                CachedBool::Value(v) => {
                    proof {
                        assert(resolve(orig, mv, w as int) == v);
                    }
                    self.arena.set(w, CachedBool::Value(v));
                },
                CachedBool::Expr(BoolExpr::Share(_)) => {
                    // XOR every party's message bit at this wire's slot
                    let mut acc = false;
                    let mut q: usize = 0;
                    proof {
                        assert(mv.take(0) =~= Seq::<Seq<bool>>::empty());
                    }
                    while q < msgs.len()
                        invariant
                            q <= msgs@.len(),
                            mv == views_of(msgs@),
                            k < msg_bits(orig).len(),
                            forall|t: int|
                                0 <= t < msgs@.len() ==> (#[trigger] mv[t]).len() == msg_bits(
                                    orig,
                                ).len(),
                            acc == fold_bit(mv.take(q as int), k as int),
                        decreases msgs@.len() - q,
                    {
                        proof {
                            let tq = mv.take(q as int + 1);
                            assert(tq =~= mv.take(q as int).push(mv[q as int]));
                            crate::sharing::lemma_fold_bit_push(
                                mv.take(q as int),
                                mv[q as int],
                                k as int,
                            );
                            assert(mv[q as int] == msgs@[q as int]@);
                        }
                        let b = msgs[q].get(k);
                        acc = (acc != b);
                        q = q + 1;
                    }
                    proof {
                        assert(mv.take(msgs@.len() as int) =~= mv);
                        assert(resolve(orig, mv, w as int) == fold_bit(
                            mv,
                            share_index(orig, w as int),
                        ));
                    }
                    self.arena.set(w, CachedBool::Value(acc));
                    k = k + 1;
                },
                CachedBool::Expr(BoolExpr::Xor(i, j)) => {
                    let vi = match self.arena[i] {
                        CachedBool::Constant(c) => c,
                        CachedBool::Value(v) => v,
                        CachedBool::Expr(_) => false,
                    };
                    let vj = match self.arena[j] {
                        CachedBool::Constant(c) => c,
                        CachedBool::Value(v) => v,
                        CachedBool::Expr(_) => false,
                    };
                    proof {
                        assert(self.arena_view()[i as int] == resolved_slot(orig, mv, i as int));
                        assert(self.arena_view()[j as int] == resolved_slot(orig, mv, j as int));
                        lemma_resolved_public(orig, mv, i as int);
                        lemma_resolved_public(orig, mv, j as int);
                        assert(vi == resolve(orig, mv, i as int));
                        assert(vj == resolve(orig, mv, j as int));
                        assert(resolve(orig, mv, w as int) == (resolve(orig, mv, i as int)
                            != resolve(orig, mv, j as int)));
                    }
                    self.arena.set(w, CachedBool::Value(vi != vj));
                },
                CachedBool::Expr(BoolExpr::And(i, j)) => {
                    let vi = match self.arena[i] {
                        CachedBool::Constant(c) => c,
                        CachedBool::Value(v) => v,
                        CachedBool::Expr(_) => false,
                    };
                    let vj = match self.arena[j] {
                        CachedBool::Constant(c) => c,
                        CachedBool::Value(v) => v,
                        CachedBool::Expr(_) => false,
                    };
                    proof {
                        assert(self.arena_view()[i as int] == resolved_slot(orig, mv, i as int));
                        assert(self.arena_view()[j as int] == resolved_slot(orig, mv, j as int));
                        lemma_resolved_public(orig, mv, i as int);
                        lemma_resolved_public(orig, mv, j as int);
                        assert(vi == resolve(orig, mv, i as int));
                        assert(vj == resolve(orig, mv, j as int));
                        assert(resolve(orig, mv, w as int) == (resolve(orig, mv, i as int)
                            && resolve(orig, mv, j as int)));
                    }
                    self.arena.set(w, CachedBool::Value(vi && vj));
                },
            }
            w = w + 1;
        }
        Ok(())
    }
}

} // verus!
