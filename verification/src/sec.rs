//! The input and output sides of a secure evaluation, as abstract
//! capabilities: a dealer sends masked inputs, parties receive their
//! shares, parties send their output shares, and a receiver folds them
//! back into a cleartext.

use vstd::prelude::*;

verus! {

/// The dealer's side of input sharing.
pub trait SecSendInput<Clear> {
    fn sec_send_input(&mut self, input: Clear);
}

/// A party's side of input sharing.
pub trait SecRecvInput<Encrypted> {
    fn sec_recv_input(&mut self) -> Encrypted;
}

/// A party's side of output reconstruction.
pub trait SecSendOutput<Encrypted> {
    fn sec_send_output(&mut self, output: Encrypted);
}

/// The receiver's side of output reconstruction.
pub trait SecRecvOutput<Clear> {
    fn sec_recv_output(&mut self) -> Clear;
}

/// Both sides of both directions at once.
pub trait SecIO<Clear, Encrypted>: SecSendInput<Clear> + SecRecvInput<Encrypted> + SecSendOutput<
    Encrypted,
> + SecRecvOutput<Clear> {

}

} // verus!
