//! The in-memory duplex byte channel: a FIFO queue of bytes, the loopback
//! variant of the protocol's channels. The TCP variant performs real
//! input and output, so it lives with the unverified process wiring; it
//! hands this crate the same plain byte strings.

use vstd::prelude::*;

verus! {

use crate::Error;

/// An in-memory byte queue; its view is the sequence of bytes written but
/// not yet read, oldest first.
pub struct LocalChannel {
    data: Vec<u8>,
}

impl LocalChannel {
    /// A fresh, empty channel.
    pub fn new() -> (r: LocalChannel)
        ensures
            r@ =~= Seq::<u8>::empty(),
    {
        LocalChannel { data: Vec::new() }
    }

    /// Append bytes at the writing end.
    pub fn write_all(&mut self, buf: &[u8])
        ensures
            final(self)@ =~= old(self)@ + buf@,
    {
        let ghost orig = self@;
        let mut i: usize = 0;
        while i < buf.len()
            invariant
                i <= buf@.len(),
                self@ =~= orig + buf@.take(i as int),
            decreases buf@.len() - i,
        {
            proof {
                assert((orig + buf@.take(i as int)).push(buf@[i as int]) =~= orig + buf@.take(
                    i as int + 1,
                ));
            }
            self.data.push(buf[i]);
            i = i + 1;
        }
        proof {
            assert(buf@.take(buf@.len() as int) =~= buf@);
        }
    }

    /// Take exactly `n` bytes from the reading end; fails, leaving the
    /// channel unchanged, when fewer are pending.
    pub fn read_exact(&mut self, n: usize) -> (r: Result<Vec<u8>, Error>)
        ensures
            old(self)@.len() >= n ==> r is Ok && final(self)@ =~= old(self)@.skip(n as int),
            old(self)@.len() < n ==> r is Err && final(self)@ =~= old(self)@,
            match r {
                Ok(v) => v@ =~= old(self)@.take(n as int),
                Err(e) => e == Error::ChannelError,
            },
    {
        if self.data.len() < n {
            return Err(Error::ChannelError);
        }
        let ghost orig = self@;
        let mut out: Vec<u8> = Vec::new();
        let mut i: usize = 0;
        while i < n
            invariant
                i <= n,
                orig.len() >= n,
                self@ =~= orig.skip(i as int),
                out@ =~= orig.take(i as int),
            decreases n - i,
        {
            proof {
                assert(orig.skip(i as int)[0] == orig[i as int]);
                assert(orig.take(i as int).push(orig[i as int]) =~= orig.take(i as int + 1));
                assert(orig.skip(i as int).remove(0) =~= orig.skip(i as int + 1));
            }
            let b = self.data.remove(0);
            out.push(b);
            i = i + 1;
        }
        Ok(out)
    }

    /// How many bytes are pending.
    pub fn pending(&self) -> (r: usize)
        ensures
            r == self@.len(),
    {
        self.data.len()
    }
}

impl View for LocalChannel {
    type V = Seq<u8>;

    closed spec fn view(&self) -> Seq<u8> {
        self.data@
    }
}

} // verus!
