use keccak::permutation::{
    absorb_1152_bits, bytes_to_lanes, chi, iota, lanes_to_bytes, permute, permute_on_words, pi,
    rho, theta,
};

/// The 25 lanes of Keccak-f[1600] applied to the all-zero state, from the
/// published reference test vectors.
const ZERO_STATE_PERMUTED: [u64; 25] = [
    0xF1258F7940E1DDE7,
    0x84D5CCF933C0478A,
    0xD598261EA65AA9EE,
    0xBD1547306F80494D,
    0x8B284E056253D057,
    0xFF97A42D7F8E6FD4,
    0x90FEE5A0A44647C4,
    0x8C5BDA0CD6192E76,
    0xAD30A6F71B19059C,
    0x30935AB7D08FFC64,
    0xEB5AA93F2317D635,
    0xA9A6E6260D712103,
    0x81A57C16DBCF555F,
    0x43B831CD0347C826,
    0x01F22F1A11A5569F,
    0x05E5635A21D9AE61,
    0x64BEFEF28CC970F2,
    0x613670957BC46611,
    0xB87C5A554FD00ECB,
    0x8C3EE88A1CCF32C8,
    0x940C7922AE3A2614,
    0x1841F924A2C509E4,
    0x16F53526E70465C2,
    0x75F644E97F30A13B,
    0xEAF1FF7B5CECA249,
];

#[test]
fn test_permutation() {
    // Every step mapping but iota fixes the all-zero state; iota of round 0
    // injects the first round constant into lane (0, 0).
    let mut state: Vec<u64> = vec![0u64; 25];
    theta(&mut state);
    assert!(state.iter().all(|&l| l == 0));
    rho(&mut state);
    assert!(state.iter().all(|&l| l == 0));
    pi(&mut state);
    assert!(state.iter().all(|&l| l == 0));
    chi(&mut state);
    assert!(state.iter().all(|&l| l == 0));
    iota(&mut state, 0);
    assert_eq!(state[0], 0x0000000000000001);
    assert!(state[1..].iter().all(|&l| l == 0));

    // The full permutation of the all-zero state matches the reference
    // output.
    let mut state: Vec<u64> = vec![0u64; 25];
    permute_on_words(&mut state);
    assert_eq!(state.as_slice(), &ZERO_STATE_PERMUTED);
}

#[test]
fn test_permute_bytes_matches_words() {
    // Permuting the byte-level state equals permuting its lane view.
    let mut bytes: Vec<u8> = (0u16..200).map(|i| (i % 251) as u8).collect();
    let mut lanes = bytes_to_lanes(&bytes);
    permute(&mut bytes);
    permute_on_words(&mut lanes);
    assert_eq!(bytes, lanes_to_bytes(&lanes));
}

#[test]
fn test_lane_roundtrip() {
    // bytes -> lanes -> bytes is the identity on the 200-byte state.
    let bytes: Vec<u8> = (0u16..200).map(|i| (i * 7 % 256) as u8).collect();
    let lanes = bytes_to_lanes(&bytes);
    assert_eq!(lanes.len(), 25);
    assert_eq!(lanes_to_bytes(&lanes), bytes);
    // Little-endian lane packing: the first eight bytes form lane 0.
    let mut packed = vec![0u8; 200];
    packed[0] = 0x01;
    packed[7] = 0x80;
    packed[8] = 0xFF;
    let first = bytes_to_lanes(&packed);
    assert_eq!(first[0], 0x8000000000000001);
    assert_eq!(first[1], 0x00000000000000FF);
}

#[test]
fn test_absorb_block_all_zero() {
    // XORing an all-zero block changes nothing, so absorbing it equals the
    // bare permutation: the canonical single-permutation sanity check.
    let mut state: Vec<u8> = vec![0u8; 200];
    let block: Vec<u8> = vec![0u8; 144];
    absorb_1152_bits(&mut state, &block);
    let lanes = bytes_to_lanes(&state);
    assert_eq!(lanes.as_slice(), &ZERO_STATE_PERMUTED);
}
