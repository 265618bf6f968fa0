use keccak::permutation::bytes_to_lanes;
use keccak::sponge::{SpongeError, SpongeState};

/// The 25 lanes of Keccak-f[1600] applied to the all-zero state.
const ZERO_STATE_PERMUTED: [u64; 25] = [
    0xF1258F7940E1DDE7,
    0x84D5CCF933C0478A,
    0xD598261EA65AA9EE,
    0xBD1547306F80494D,
    0x8B284E056253D057,
    0xFF97A42D7F8E6FD4,
    0x90FEE5A0A44647C4,
    0x8C5BDA0CD6192E76,
    0xAD30A6F71B19059C,
    0x30935AB7D08FFC64,
    0xEB5AA93F2317D635,
    0xA9A6E6260D712103,
    0x81A57C16DBCF555F,
    0x43B831CD0347C826,
    0x01F22F1A11A5569F,
    0x05E5635A21D9AE61,
    0x64BEFEF28CC970F2,
    0x613670957BC46611,
    0xB87C5A554FD00ECB,
    0x8C3EE88A1CCF32C8,
    0x940C7922AE3A2614,
    0x1841F924A2C509E4,
    0x16F53526E70465C2,
    0x75F644E97F30A13B,
    0xEAF1FF7B5CECA249,
];

fn squeeze_bytes(sp: &mut SpongeState, n: usize) -> Vec<u8> {
    let mut out = vec![0u8; n];
    sp.squeeze(&mut out, n).unwrap();
    out
}

#[test]
fn test_sponge() {
    // Absorbing one all-zero 1152-bit block leaves the state equal to the
    // reference permutation output.
    let mut sp = SpongeState::new(1152, 448);
    let test_in = vec![0u8; 144];
    sp.absorb(&test_in, 1152).unwrap();
    let lanes = bytes_to_lanes(sp.state_bytes());
    assert_eq!(lanes.as_slice(), &ZERO_STATE_PERMUTED);
}

#[test]
fn test_absorb_after_squeeze_rejected() {
    // Once any squeeze has happened, absorb reports misuse instead of
    // producing a silently wrong digest.
    let mut sp = SpongeState::new(1088, 512);
    sp.absorb(b"abc", 24).unwrap();
    let _ = squeeze_bytes(&mut sp, 32);
    assert_eq!(sp.absorb(b"more", 32), Err(SpongeError::InvalidState));
}

#[test]
fn test_absorb_after_fragment_rejected() {
    // A sub-byte fragment may only end a message; a further absorb fails.
    let mut sp = SpongeState::new(1088, 512);
    sp.absorb(&[0b101], 3).unwrap();
    assert_eq!(sp.absorb(b"x", 8), Err(SpongeError::InvalidState));
}

#[test]
fn test_absorb_bit_len_exceeding_buffer_rejected() {
    let mut sp = SpongeState::new(1088, 512);
    assert_eq!(sp.absorb(b"ab", 17), Err(SpongeError::InvalidLength));
    // The instance is untouched and still usable.
    sp.absorb(b"ab", 16).unwrap();
}

#[test]
fn test_squeeze_short_buffer_rejected() {
    let mut sp = SpongeState::new(1088, 512);
    sp.absorb(b"abc", 24).unwrap();
    let mut out = vec![0u8; 16];
    assert_eq!(sp.squeeze(&mut out, 32), Err(SpongeError::InvalidLength));
    // A correctly sized request then succeeds.
    assert_eq!(sp.squeeze(&mut out, 16), Ok(()));
}

#[test]
fn test_incremental_absorption() {
    // Absorbing a message in chunks, byte-aligned except for the final one,
    // equals absorbing it in a single call.
    let msg: Vec<u8> = (0u16..300).map(|i| (i * 13 % 256) as u8).collect();

    let mut whole = SpongeState::new(1088, 512);
    whole.absorb(&msg, 300 * 8).unwrap();

    let mut chunked = SpongeState::new(1088, 512);
    chunked.absorb(&msg[..1], 8).unwrap();
    chunked.absorb(&msg[1..137], 136 * 8).unwrap();
    chunked.absorb(&msg[137..], 163 * 8).unwrap();

    assert_eq!(squeeze_bytes(&mut whole, 64), squeeze_bytes(&mut chunked, 64));
}

#[test]
fn test_incremental_absorption_bit_tail() {
    // A 20-bit message fed as 16 bits and then a 4-bit fragment equals the
    // same 20 bits in one call.
    let msg = [0xA5u8, 0x3C, 0x0B];

    let mut whole = SpongeState::new(1152, 448);
    whole.absorb(&msg, 20).unwrap();

    let mut chunked = SpongeState::new(1152, 448);
    chunked.absorb(&msg[..2], 16).unwrap();
    chunked.absorb(&msg[2..], 4).unwrap();

    assert_eq!(squeeze_bytes(&mut whole, 32), squeeze_bytes(&mut chunked, 32));
}

#[test]
fn test_padding_exact_block_boundary() {
    // A message of exactly one rate of bits pads into a whole extra block;
    // the already-absorbed state is not corrupted, so the digest matches the
    // incremental computation of the same message.
    let msg = vec![0x5Au8; 136];

    let mut whole = SpongeState::new(1088, 512);
    whole.absorb(&msg, 1088).unwrap();

    let mut chunked = SpongeState::new(1088, 512);
    chunked.absorb(&msg[..135], 135 * 8).unwrap();
    chunked.absorb(&msg[135..], 8).unwrap();

    assert_eq!(squeeze_bytes(&mut whole, 64), squeeze_bytes(&mut chunked, 64));
}

#[test]
fn test_padding_one_free_bit() {
    // A message leaving exactly one bit of queue space exercises the case
    // where the two padding bits fall into separate blocks.
    let msg = vec![0x77u8; 144];

    let mut whole = SpongeState::new(1152, 448);
    whole.absorb(&msg, 1151).unwrap();

    let mut chunked = SpongeState::new(1152, 448);
    chunked.absorb(&msg[..143], 143 * 8).unwrap();
    chunked.absorb(&msg[143..], 7).unwrap();

    assert_eq!(squeeze_bytes(&mut whole, 64), squeeze_bytes(&mut chunked, 64));

    // The padded state still accepts no further input.
    assert_eq!(whole.absorb(b"x", 8), Err(SpongeError::InvalidState));
}

#[test]
fn test_squeeze_multi_block() {
    // Squeezing more than one rate-sized block in one call produces the same
    // stream as repeated shorter squeezes of a second instance.
    let msg = b"extendable output";

    let mut big = SpongeState::new(1024, 576);
    big.absorb(msg, msg.len() * 8).unwrap();
    let all = squeeze_bytes(&mut big, 300);

    let mut small = SpongeState::new(1024, 576);
    small.absorb(msg, msg.len() * 8).unwrap();
    let mut parts = Vec::new();
    parts.extend_from_slice(&squeeze_bytes(&mut small, 100));
    parts.extend_from_slice(&squeeze_bytes(&mut small, 100));
    parts.extend_from_slice(&squeeze_bytes(&mut small, 100));

    assert_eq!(all, parts);
}

#[test]
fn test_trailing_bits_ignored() {
    // data_bit_len may be less than the buffer holds; the bytes beyond it do
    // not enter the state.
    let mut short = SpongeState::new(1088, 512);
    short.absorb(&[0xFF], 8).unwrap();
    let mut padded = SpongeState::new(1088, 512);
    padded.absorb(&[0xFF, 0xAB, 0xCD], 8).unwrap();
    assert_eq!(squeeze_bytes(&mut short, 32), squeeze_bytes(&mut padded, 32));
}

#[test]
fn test_generic_rate_path() {
    // A rate outside the specialized set runs through the generic
    // lane-count absorption and behaves like the others.
    let msg: Vec<u8> = (0u16..200).map(|i| (i * 31 % 256) as u8).collect();

    let mut whole = SpongeState::new(1216, 384);
    whole.absorb(&msg, 200 * 8).unwrap();

    let mut chunked = SpongeState::new(1216, 384);
    chunked.absorb(&msg[..57], 57 * 8).unwrap();
    chunked.absorb(&msg[57..], 143 * 8).unwrap();

    assert_eq!(squeeze_bytes(&mut whole, 200), squeeze_bytes(&mut chunked, 200));
}

#[test]
fn test_determinism() {
    // Fresh instances with the same configuration hash the same message to
    // identical bytes.
    let msg = b"determinism check";
    let mut a = SpongeState::new(832, 768);
    let mut b = SpongeState::new(832, 768);
    a.absorb(msg, msg.len() * 8).unwrap();
    b.absorb(msg, msg.len() * 8).unwrap();
    assert_eq!(squeeze_bytes(&mut a, 48), squeeze_bytes(&mut b, 48));
}

#[test]
fn test_reset_restores_fresh_state() {
    let msg = b"first message";
    let mut a = SpongeState::new(1088, 512);
    a.absorb(msg, msg.len() * 8).unwrap();
    let first = squeeze_bytes(&mut a, 32);

    a.reset();
    assert_eq!(a.rate(), 1088);
    assert_eq!(a.capacity(), 512);
    a.absorb(msg, msg.len() * 8).unwrap();
    assert_eq!(squeeze_bytes(&mut a, 32), first);
}
