//! The four endpoints of a secure evaluation, over in-memory channels: a
//! dealer masking inputs onto party channels, a party taking its share
//! off one channel, a party publishing its output share, and a receiver
//! folding the published shares back into a cleartext. Each endpoint
//! owns its channels for the session. The same roles over sockets are
//! process wiring and live outside the library.

use vstd::prelude::*;

verus! {

use crate::Error;
use crate::bitseq::{BitVec, serial, parse};
use crate::channel::LocalChannel;
use crate::prg::Prg;
use crate::sharing::{
    share_send,
    share_recv,
    reveal_send,
    reveal_recv,
    xor_fold,
    reveal_ready,
    streams_shares,
};

/// The dealer's endpoint: a generator and one channel per party.
pub struct InputClient {
    pub prg: Prg,
    pub receivers: Vec<LocalChannel>,
}

impl InputClient {
    /// Split the cleartext into one share per channel and send each,
    /// masked shares to every channel past the first and the folded
    /// mask to channel 0.
    pub fn sec_send_input(&mut self, input: &BitVec)
        requires
            old(self).receivers@.len() >= 1,
        ensures
            final(self).receivers@.len() == old(self).receivers@.len(),
            exists|shares: Seq<Seq<bool>>|
                {
                    &&& shares.len() == old(self).receivers@.len()
                    &&& forall|p: int|
                        0 <= p < shares.len() ==> (#[trigger] shares[p]).len() == input@.len()
                    &&& forall|p: int|
                        0 <= p < shares.len() ==> (#[trigger] final(self).receivers@[p])@ == old(
                            self,
                        ).receivers@[p]@ + serial(shares[p])
                    &&& xor_fold(shares, input@.len()) =~= input@
                },
    {
        share_send(&mut self.prg, &mut self.receivers, input)
    }
}

/// A party's input endpoint: the channel from the dealer.
pub struct InputServer {
    pub sender: LocalChannel,
}

impl InputServer {
    /// Take this party's share off the dealer's channel.
    pub fn sec_recv_input(&mut self) -> (r: Result<BitVec, Error>)
        ensures
            match r {
                Ok(bv) => {
                    &&& parse(old(self).sender@) is Some
                    &&& bv@ == parse(old(self).sender@).unwrap().0
                    &&& final(self).sender@ =~= old(self).sender@.skip(
                        parse(old(self).sender@).unwrap().1,
                    )
                },
                Err(e) => parse(old(self).sender@) is None,
            },
    {
        share_recv(&mut self.sender)
    }
}

/// A party's output endpoint: the channel to the receiver.
pub struct OutputServer {
    pub receiver: LocalChannel,
}

impl OutputServer {
    /// Publish this party's share of the output.
    pub fn sec_send_output(&mut self, output: &BitVec)
        ensures
            final(self).receiver@ =~= old(self).receiver@ + serial(output@),
    {
        reveal_send(&mut self.receiver, output)
    }
}

/// The receiver's endpoint: one channel per party.
pub struct OutputClient {
    pub senders: Vec<LocalChannel>,
}

impl OutputClient {
    /// Read one share per channel, in channel order, and fold them back
    /// into the cleartext.
    pub fn sec_recv_output(&mut self) -> (r: Result<BitVec, Error>)
        requires
            old(self).senders@.len() >= 1,
        ensures
            final(self).senders@.len() == old(self).senders@.len(),
            match r {
                Ok(bv) => {
                    &&& reveal_ready(old(self).senders@.map_values(|c: LocalChannel| c@))
                    &&& bv@ =~= xor_fold(
                        streams_shares(old(self).senders@.map_values(|c: LocalChannel| c@)),
                        bv@.len(),
                    )
                    &&& bv@.len() == parse(old(self).senders@[0]@).unwrap().0.len()
                },
                Err(e) => !reveal_ready(old(self).senders@.map_values(|c: LocalChannel| c@)),
            },
    {
        reveal_recv(&mut self.senders)
    }
}

} // verus!
