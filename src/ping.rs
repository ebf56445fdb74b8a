//! ICMP echo requests: the Internet checksum and the packet layout.

use vstd::prelude::*;
use vstd::arithmetic::div_mod::lemma_add_mod_noop;

verus! {

/// Sum of the first `n` big-endian 16-bit words of `b`.
pub open spec fn pairs_sum(b: Seq<u8>, n: int) -> nat
    decreases n,
{
    if n <= 0 {
        0
    } else {
        pairs_sum(b, n - 1) + b[2 * n - 2] as nat * 256 + b[2 * n - 1] as nat
    }
}

/// Sum of the 16-bit words of `b`, a last odd byte padded with a zero low
/// byte, kept modulo 2^32 as a 32-bit accumulator keeps it.
pub open spec fn word_sum(b: Seq<u8>) -> nat {
    (pairs_sum(b, b.len() as int / 2) + if b.len() % 2 == 1 {
        b[b.len() - 1] as nat * 256
    } else {
        0
    }) % 0x1_0000_0000
}

/// One carry fold: the high half added back onto the low 16 bits.
pub open spec fn fold(s: nat) -> nat {
    s % 0x10000 + s / 0x10000
}

/// Ones' complement of the folded word sum.
pub open spec fn checksum_of(b: Seq<u8>) -> u16 {
    (0xffff - fold(fold(word_sum(b)))) as u16
}

/// The Internet checksum of `buf`: the ones' complement of the ones'
/// complement sum of its big-endian 16-bit words.
pub fn icmp_checksum(buf: &[u8]) -> (r: u16)
    ensures
        r == checksum_of(buf@),
{
    let mut sum: u32 = 0;
    let mut i: usize = 0;
    while buf.len() - i >= 2
        invariant
            i <= buf@.len(),
            i % 2 == 0,
            sum == pairs_sum(buf@, i as int / 2) % 0x1_0000_0000,
        decreases buf@.len() - i,
    {
        let word: u32 = buf[i] as u32 * 256 + buf[i + 1] as u32;
        proof {
            assert(pairs_sum(buf@, (i + 2) as int / 2) == pairs_sum(buf@, i as int / 2) + word);
            lemma_add_mod_noop(pairs_sum(buf@, i as int / 2) as int, word as int, 0x1_0000_0000);
        }
        sum = sum.wrapping_add(word);
        i += 2;
    }
    if i < buf.len() {
        let word: u32 = buf[i] as u32 * 256;
        proof {
            lemma_add_mod_noop(pairs_sum(buf@, i as int / 2) as int, word as int, 0x1_0000_0000);
        }
        sum = sum.wrapping_add(word);
    }
    assert(sum == word_sum(buf@));
    sum = sum % 0x10000 + sum / 0x10000;
    sum = sum % 0x10000 + sum / 0x10000;
    assert(sum <= 0xffff) by (nonlinear_arith)
        requires
            sum == fold(fold(word_sum(buf@))),
            word_sum(buf@) < 0x1_0000_0000,
    ;
    (0xffff - sum) as u16
}

/// An echo request: type 8, code 0, the checksum, identifier and sequence
/// (big-endian), then the payload.
pub open spec fn echo_packet(identifier: u16, sequence: u16, payload: Seq<u8>, check: u16) -> Seq<u8> {
    seq![
        8u8,
        0u8,
        (check / 256) as u8,
        (check % 256) as u8,
        (identifier / 256) as u8,
        (identifier % 256) as u8,
        (sequence / 256) as u8,
        (sequence % 256) as u8,
    ] + payload
}

/// An echo request whose checksum field holds the checksum of the packet
/// with that field zero.
pub fn build_echo_request(identifier: u16, sequence: u16, payload: &[u8]) -> (r: Vec<u8>)
    ensures
        r@ == echo_packet(
            identifier,
            sequence,
            payload@,
            checksum_of(echo_packet(identifier, sequence, payload@, 0)),
        ),
{
    let mut packet: Vec<u8> = Vec::new();
    packet.push(8u8);
    packet.push(0u8);
    packet.push(0u8);
    packet.push(0u8);
    packet.push((identifier / 256) as u8);
    packet.push((identifier % 256) as u8);
    packet.push((sequence / 256) as u8);
    packet.push((sequence % 256) as u8);
    let mut i: usize = 0;
    while i < payload.len()
        invariant
            i <= payload@.len(),
            packet@ == echo_packet(identifier, sequence, payload@.subrange(0, i as int), 0),
        decreases payload@.len() - i,
    {
        packet.push(payload[i]);
        proof {
            assert(payload@.subrange(0, i + 1) =~= payload@.subrange(0, i as int).push(payload@[i as int]));
            assert(packet@ =~= echo_packet(identifier, sequence, payload@.subrange(0, i + 1), 0));
        }
        i += 1;
    }
    assert(payload@.subrange(0, i as int) =~= payload@);
    let check = icmp_checksum(packet.as_slice());
    packet.set(2, (check / 256) as u8);
    packet.set(3, (check % 256) as u8);
    assert(packet@ =~= echo_packet(identifier, sequence, payload@, check));
    packet
}

} // verus!
