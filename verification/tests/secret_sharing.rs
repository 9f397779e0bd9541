//! XOR secret sharing: correctness of reconstruction, the statistical
//! look of individual shares, and the channel-level protocol.

use gmw::bitseq::BitVec;
use gmw::channel::LocalChannel;
use gmw::eval::{InputClient, InputServer, OutputClient, OutputServer};
use gmw::prg::Prg;
use gmw::sharing::{reveal_recv, reveal_send, share_recv, share_send, share_split};
use gmw::Error;

/// Deal a value to two parties, publish their shares, and reconstruct.
fn send_recv(expected: &BitVec) {
    let prg = Prg::new();
    let mut send_ctx =
        InputClient { prg, receivers: vec![LocalChannel::new(), LocalChannel::new()] };
    send_ctx.sec_send_input(expected);
    let mut chans = send_ctx.receivers;
    let mut recv_ctx2 = InputServer { sender: chans.pop().unwrap() };
    let mut recv_ctx1 = InputServer { sender: chans.pop().unwrap() };
    let bv1 = recv_ctx1.sec_recv_input().unwrap();
    let bv2 = recv_ctx2.sec_recv_input().unwrap();
    let mut send_ctx1 = OutputServer { receiver: LocalChannel::new() };
    let mut send_ctx2 = OutputServer { receiver: LocalChannel::new() };
    send_ctx1.sec_send_output(&bv1);
    send_ctx2.sec_send_output(&bv2);
    let mut recv_ctx = OutputClient { senders: vec![send_ctx1.receiver, send_ctx2.receiver] };
    let result = recv_ctx.sec_recv_output().unwrap();
    assert_eq!(&result, expected);
}

#[test]
fn send_recv_u32() {
    let bv = BitVec::from_u32(42);
    send_recv(&bv);
    assert_eq!(bv.to_u32(), 42);
}

#[test]
fn send_recv_bit() {
    let bv = BitVec::from_bool(false);
    send_recv(&bv);
    assert_eq!(bv.to_bool(), false);
}

#[test]
fn send_recv_bits() {
    let mut prg = Prg::new();
    for i in 0..=128 {
        send_recv(&BitVec::random(&mut prg, i));
    }
}

fn bitvec_of(bits: &[bool]) -> BitVec {
    let mut bv = BitVec::new();
    for b in bits {
        bv.push(*b);
    }
    bv
}

fn xor_all(shares: &[BitVec]) -> BitVec {
    let mut acc = shares[0].clone();
    for s in &shares[1..] {
        acc.xor_assign(s);
    }
    acc
}

#[test]
fn share_split_reconstructs() {
    let mut prg = Prg::from_seed(3, 5);
    for n in [2usize, 3, 5] {
        for len in [1usize, 8, 64, 129] {
            let clear = BitVec::random(&mut prg, len);
            let shares = share_split(&mut prg, n, &clear);
            assert_eq!(shares.len(), n);
            for s in &shares {
                assert_eq!(s.len(), len);
            }
            assert_eq!(xor_all(&shares), clear);
        }
    }
}

#[test]
fn shares_look_uniform() {
    // any N-1 of the N shares pass a loose uniform-bit-frequency test
    let mut prg = Prg::from_seed(17, 23);
    let len = 2048usize;
    let clear = BitVec::one(len);
    let shares = share_split(&mut prg, 4, &clear);
    // leave one share out; every remaining one should look random,
    // including the masked one
    for s in &shares[0..3] {
        let mut ones = 0usize;
        for i in 0..len {
            if s.get(i) {
                ones += 1;
            }
        }
        assert!(ones > len * 2 / 5, "share too sparse: {} of {}", ones, len);
        assert!(ones < len * 3 / 5, "share too dense: {} of {}", ones, len);
    }
}

#[test]
fn share_send_and_reveal_over_channels() {
    let mut prg = Prg::from_seed(100, 200);
    let clear = bitvec_of(&[true, false, false, true, true, false, true, false, true]);
    let mut channels = vec![LocalChannel::new(), LocalChannel::new(), LocalChannel::new()];
    share_send(&mut prg, &mut channels, &clear);
    // each party takes its share off its channel
    let mut shares = Vec::new();
    for ch in channels.iter_mut() {
        shares.push(share_recv(ch).unwrap());
    }
    assert_eq!(xor_all(&shares), clear);
    // the parties publish their shares and anyone reconstructs
    let mut back = vec![LocalChannel::new(), LocalChannel::new(), LocalChannel::new()];
    for (ch, s) in back.iter_mut().zip(shares.iter()) {
        reveal_send(ch, s);
    }
    let rebuilt = reveal_recv(&mut back).unwrap();
    assert_eq!(rebuilt, clear);
}

#[test]
fn reveal_recv_refuses_width_mismatch() {
    let mut channels = vec![LocalChannel::new(), LocalChannel::new()];
    reveal_send(&mut channels[0], &BitVec::zero(8));
    reveal_send(&mut channels[1], &BitVec::zero(9));
    assert_eq!(reveal_recv(&mut channels).unwrap_err(), Error::WidthMismatch);
}

#[test]
fn reveal_recv_refuses_short_channel() {
    let mut channels = vec![LocalChannel::new()];
    channels[0].write_all(&[1, 2, 3]);
    assert_eq!(reveal_recv(&mut channels).unwrap_err(), Error::ChannelError);
}

#[test]
fn local_channel_is_fifo() {
    let mut ch = LocalChannel::new();
    ch.write_all(&[1, 2, 3]);
    ch.write_all(&[4, 5]);
    assert_eq!(ch.pending(), 5);
    assert_eq!(ch.read_exact(2).unwrap(), vec![1, 2]);
    assert_eq!(ch.read_exact(3).unwrap(), vec![3, 4, 5]);
    assert_eq!(ch.read_exact(1).unwrap_err(), Error::ChannelError);
}

#[test]
fn share_recv_short_channel_is_channel_error() {
    let mut ch = LocalChannel::new();
    ch.write_all(&[9, 0, 0]);
    assert_eq!(share_recv(&mut ch).unwrap_err(), Error::ChannelError);
}
