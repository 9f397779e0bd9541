//! XOR secret sharing over channels: split a cleartext into one share per
//! party, send one share down each channel, and reconstruct by folding
//! received shares with XOR.

use vstd::prelude::*;

verus! {

use crate::Error;
use crate::bitseq::{BitVec, serial, parse};
use crate::channel::LocalChannel;
use crate::prg::Prg;

/// Bit `i` of the XOR-fold of the given bit strings.
pub open spec fn fold_bit(shares: Seq<Seq<bool>>, i: int) -> bool
    decreases shares.len(),
{
    if shares.len() == 0 {
        false
    } else {
        shares[0][i] != fold_bit(shares.skip(1), i)
    }
}

/// The XOR-fold of equal-length bit strings, as a string of length `len`.
pub open spec fn xor_fold(shares: Seq<Seq<bool>>, len: nat) -> Seq<bool> {
    Seq::new(len, |i: int| fold_bit(shares, i))
}

/// The views of a sequence of bit sequences.
pub open spec fn views_of(shares: Seq<BitVec>) -> Seq<Seq<bool>> {
    shares.map_values(|b: BitVec| b@)
}

/// Folding one more share folds its bit in.
pub proof fn lemma_fold_bit_push(shares: Seq<Seq<bool>>, s: Seq<bool>, i: int)
    ensures
        fold_bit(shares.push(s), i) == (fold_bit(shares, i) != s[i]),
    decreases shares.len(),
{
    let t = shares.push(s);
    if shares.len() == 0 {
        assert(t[0] == s);
        assert(t.skip(1) =~= Seq::<Seq<bool>>::empty());
        assert(fold_bit(t, i) == (t[0][i] != fold_bit(t.skip(1), i)));
    } else {
        assert(t[0] == shares[0]);
        assert(t.skip(1) =~= shares.skip(1).push(s));
        lemma_fold_bit_push(shares.skip(1), s, i);
        assert(fold_bit(t, i) == (t[0][i] != fold_bit(t.skip(1), i)));
        assert(fold_bit(shares, i) == (shares[0][i] != fold_bit(shares.skip(1), i)));
    }
}

/// Split a cleartext into `n_parties` shares of its length: all but the
/// first drawn from the generator, the first the XOR of the cleartext
/// with every drawn share, so that the XOR-fold of all the shares is the
/// cleartext again, whatever the generator produced.
pub fn share_split(prg: &mut Prg, n_parties: usize, clear: &BitVec) -> (r: Vec<BitVec>)
    requires
        n_parties >= 1,
    ensures
        r@.len() == n_parties,
        forall|p: int| 0 <= p < n_parties ==> (#[trigger] r@[p])@.len() == clear@.len(),
        xor_fold(views_of(r@), clear@.len()) =~= clear@,
{
    let len = clear.len();
    let mut acc = BitVec::zero(len);
    acc.xor_assign(clear);
    proof {
        assert(acc@ =~= clear@);
    }
    let mut shares: Vec<BitVec> = Vec::new();
    // a placeholder for the first share, overwritten at the end
    shares.push(BitVec::zero(len));
    let mut p: usize = 1;
    while p < n_parties
        invariant
            1 <= p <= n_parties,
            shares@.len() == p,
            clear@.len() == len,
            acc@.len() == len,
            forall|q: int| 0 <= q < p ==> (#[trigger] shares@[q])@.len() == len,
            forall|i: int|
                0 <= i < len ==> acc@[i] == (clear@[i] != fold_bit(views_of(shares@).skip(1), i)),
        decreases n_parties - p,
    {
        let s = BitVec::random(prg, len);
        proof {
            let vs = views_of(shares@);
            assert(views_of(shares@.push(s)) =~= vs.push(s@));
            assert(views_of(shares@.push(s)).skip(1) =~= vs.skip(1).push(s@));
            assert forall|i: int| 0 <= i < len implies fold_bit(vs.skip(1).push(s@), i) == (
            fold_bit(vs.skip(1), i) != s@[i]) by {
                lemma_fold_bit_push(vs.skip(1), s@, i);
            }
        }
        acc.xor_assign(&s);
        shares.push(s);
        p = p + 1;
    }
    let ghost before = shares@;
    shares.set(0, acc);
    proof {
        let vs = views_of(shares@);
        assert(vs.skip(1) =~= views_of(before).skip(1));
        assert(vs[0] == acc@);
        assert forall|i: int| 0 <= i < len implies fold_bit(vs, i) == clear@[i] by {
            assert(fold_bit(vs, i) == (vs[0][i] != fold_bit(vs.skip(1), i)));
        }
    }
    shares
}

/// Generate shares of `clear` and send one, length-prefixed, down each
/// channel: random shares to every channel past the first, and the
/// masked cleartext to channel 0.
pub fn share_send(prg: &mut Prg, channels: &mut Vec<LocalChannel>, clear: &BitVec)
    requires
        old(channels)@.len() >= 1,
    ensures
        final(channels)@.len() == old(channels)@.len(),
        exists|shares: Seq<Seq<bool>>|
            {
                &&& shares.len() == old(channels)@.len()
                &&& forall|p: int|
                    0 <= p < shares.len() ==> (#[trigger] shares[p]).len() == clear@.len()
                &&& forall|p: int|
                    0 <= p < shares.len() ==> (#[trigger] final(channels)@[p])@ == old(
                        channels,
                    )@[p]@ + serial(shares[p])
                &&& xor_fold(shares, clear@.len()) =~= clear@
            },
{
    let n = channels.len();
    let shares = share_split(prg, n, clear);
    let ghost svs = views_of(shares@);
    let ghost orig = channels@;
    let mut p: usize = 0;
    while p < n
        invariant
            p <= n,
            shares@.len() == n,
            channels@.len() == n,
            orig.len() == n,
            views_of(shares@) == svs,
            forall|q: int|
                0 <= q < p ==> (#[trigger] channels@[q])@ == orig[q]@ + serial(svs[q]),
            forall|q: int| p <= q < n ==> (#[trigger] channels@[q])@ == orig[q]@,
        decreases n - p,
    {
        let mut buf: Vec<u8> = Vec::new();
        let sh = &shares[p];
        sh.write(&mut buf);
        channels[p].write_all(buf.as_slice());
        p = p + 1;
    }
}

/// Receive this party's share: one length-prefixed sequence from the
/// dealer's channel. No secrecy check is possible or made.
pub fn share_recv(channel: &mut LocalChannel) -> (r: Result<BitVec, Error>)
    ensures
        match r {
            Ok(bv) => {
                &&& parse(old(channel)@) is Some
                &&& bv@ == parse(old(channel)@).unwrap().0
                &&& final(channel)@ =~= old(channel)@.skip(parse(old(channel)@).unwrap().1)
            },
            Err(e) => parse(old(channel)@) is None,
        },
{
    BitVec::recv(channel)
}

/// Publish the local share of a value under reconstruction.
pub fn reveal_send(channel: &mut LocalChannel, share: &BitVec)
    ensures
        final(channel)@ =~= old(channel)@ + serial(share@),
{
    let mut buf: Vec<u8> = Vec::new();
    share.write(&mut buf);
    channel.write_all(buf.as_slice());
}

/// Whether every channel starts with a well-formed share whose length
/// agrees with the first channel's.
pub open spec fn reveal_ready(chs: Seq<Seq<u8>>) -> bool {
    &&& forall|p: int| 0 <= p < chs.len() ==> parse(#[trigger] chs[p]) is Some
    &&& forall|p: int|
        0 <= p < chs.len() ==> (#[trigger] parse(chs[p]).unwrap().0).len() == parse(
            chs[0],
        ).unwrap().0.len()
}

/// The shares at the head of each channel.
pub open spec fn streams_shares(chs: Seq<Seq<u8>>) -> Seq<Seq<bool>> {
    chs.map_values(|d: Seq<u8>| parse(d).unwrap().0)
}

/// Reconstruct a cleartext: read one share per channel, in channel
/// order, and fold them with XOR. Fails when a channel holds no
/// well-formed share or when a share's length disagrees with the first.
pub fn reveal_recv(channels: &mut Vec<LocalChannel>) -> (r: Result<BitVec, Error>)
    requires
        old(channels)@.len() >= 1,
    ensures
        final(channels)@.len() == old(channels)@.len(),
        match r {
            Ok(bv) => {
                &&& reveal_ready(old(channels)@.map_values(|c: LocalChannel| c@))
                &&& bv@ =~= xor_fold(
                    streams_shares(old(channels)@.map_values(|c: LocalChannel| c@)),
                    bv@.len(),
                )
                &&& bv@.len() == parse(old(channels)@[0]@).unwrap().0.len()
            },
            Err(e) => !reveal_ready(old(channels)@.map_values(|c: LocalChannel| c@)),
        },
{
    let ghost origs = old(channels)@.map_values(|c: LocalChannel| c@);
    let n = channels.len();
    let first = match BitVec::recv(&mut channels[0]) {
        Ok(bv) => bv,
        Err(e) => {
            proof {
                assert(origs[0] == old(channels)@[0]@);
                assert(parse(origs[0]) is None);
            }
            return Err(e);
        },
    };
    let width = first.len();
    let mut acc = first;
    let mut p: usize = 1;
    proof {
        assert(origs[0] == old(channels)@[0]@);
        let shs = streams_shares(origs);
        assert(shs[0] == parse(origs[0]).unwrap().0);
        assert(shs.take(1) =~= seq![shs[0]]);
        assert forall|i: int| 0 <= i < width implies fold_bit(shs.take(1), i) == acc@[i] by {
            assert(shs.take(1)[0] == shs[0]);
            assert(shs.take(1).skip(1) =~= Seq::<Seq<bool>>::empty());
            assert(fold_bit(shs.take(1).skip(1), i) == false);
            assert(fold_bit(shs.take(1), i) == (shs.take(1)[0][i] != fold_bit(
                shs.take(1).skip(1),
                i,
            )));
        }
    }
    while p < n
        invariant
            1 <= p <= n,
            channels@.len() == n,
            origs.len() == n,
            origs == old(channels)@.map_values(|c: LocalChannel| c@),
            old(channels)@.len() == n,
            acc@.len() == width,
            forall|q: int| p <= q < n ==> (#[trigger] channels@[q])@ == origs[q],
            forall|q: int| 0 <= q < p ==> parse(#[trigger] origs[q]) is Some,
            forall|q: int|
                0 <= q < p ==> (#[trigger] parse(origs[q]).unwrap().0).len() == width,
            parse(origs[0]).unwrap().0.len() == width,
            forall|i: int|
                0 <= i < width ==> acc@[i] == fold_bit(streams_shares(origs).take(p as int), i),
        decreases n - p,
    {
        let share = match BitVec::recv(&mut channels[p]) {
            Ok(bv) => bv,
            Err(e) => {
                proof {
                    assert(origs[p as int] == old(channels)@[p as int]@);
                    assert(parse(origs[p as int]) is None);
                }
                return Err(e);
            },
        };
        if share.len() != width {
            proof {
                assert(parse(origs[p as int]).unwrap().0.len() != width);
            }
            return Err(Error::WidthMismatch);
        }
        proof {
            let shs = streams_shares(origs);
            assert(shs.take(p as int).push(shs[p as int]) =~= shs.take(p as int + 1));
            assert(share@ == shs[p as int]);
            assert forall|i: int| 0 <= i < width implies fold_bit(shs.take(p as int + 1), i) == (
            fold_bit(shs.take(p as int), i) != share@[i]) by {
                lemma_fold_bit_push(shs.take(p as int), shs[p as int], i);
            }
        }
        acc.xor_assign(&share);
        p = p + 1;
    }
    proof {
        let shs = streams_shares(origs);
        assert(shs.take(n as int) =~= shs);
        assert(acc@ =~= xor_fold(shs, width as nat));
    }
    Ok(acc)
}

} // verus!
