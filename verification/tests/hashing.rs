use keccak::nist::Keccak;
use keccak::sponge::SpongeError;

fn hex_to_bytes(s: &str) -> Vec<u8> {
    let chars: Vec<u8> = s.bytes().collect();
    assert!(chars.len() % 2 == 0);
    let mut out = Vec::new();
    for pair in chars.chunks(2) {
        let hi = (pair[0] as char).to_digit(16).unwrap() as u8;
        let lo = (pair[1] as char).to_digit(16).unwrap() as u8;
        out.push(hi << 4 | lo);
    }
    out
}

fn digest_of(size: usize, msg: &[u8]) -> Vec<u8> {
    let mut kc = Keccak::new(size);
    kc.input(msg).unwrap();
    let mut out = vec![0u8; size / 8];
    kc.result(&mut out).unwrap();
    out
}

#[test]
fn test_hashing() {
    // Known-answer digests of the empty message for each of the standard
    // output sizes, from the published Keccak test vectors.
    let expected: [(usize, &str); 4] = [
        (224, "f71837502ba8e10837bdd8d365adb85591895602fc552b48b7390abd"),
        (256, "c5d2460186f7233c927e7db2dcc703c0e500b653ca82273b7bfad8045d85a470"),
        (
            384,
            "2c23146a63a29acf99e73b88f8c24eaa7dc60aa771780ccc006afbfa8fe2479b2dd2b21362337441ac12b515911957ff",
        ),
        (
            512,
            "0eab42de4c3ceb9235fc91acffe746b29c29a8c366b7c60e4e67c466f36a4304c00fa9caf9d87976ba469bcbe06713b435f091ef2769fb160cdab33d3670680e",
        ),
    ];
    for (size, hex) in expected.iter() {
        assert_eq!(digest_of(*size, b""), hex_to_bytes(hex), "size {}", size);
    }
}

#[test]
fn test_quick_brown_fox() {
    // The classic end-to-end acceptance vector for the 256-bit output size.
    let digest = digest_of(256, b"The quick brown fox jumps over the lazy dog");
    assert_eq!(
        digest,
        hex_to_bytes("4d741b6f1eb29cb2a9b9911c82f56fa8d73b04959d3d9d222895df6c0b28aa15")
    );
}

#[test]
fn test_incremental_input_matches_single_input() {
    let msg = b"The quick brown fox jumps over the lazy dog";
    let mut kc = Keccak::new(256);
    kc.input(&msg[..10]).unwrap();
    kc.input(&msg[10..30]).unwrap();
    kc.input(&msg[30..]).unwrap();
    let mut out = vec![0u8; 32];
    kc.result(&mut out).unwrap();
    assert_eq!(out, digest_of(256, msg));
}

#[test]
fn test_input_after_result_rejected() {
    let mut kc = Keccak::new(256);
    kc.input(b"abc").unwrap();
    let mut out = vec![0u8; 32];
    kc.result(&mut out).unwrap();
    assert_eq!(kc.input(b"def"), Err(SpongeError::InvalidState));
}

#[test]
fn test_result_short_buffer_rejected() {
    let mut kc = Keccak::new(512);
    kc.input(b"abc").unwrap();
    let mut out = vec![0u8; 16];
    assert_eq!(kc.result(&mut out), Err(SpongeError::InvalidLength));
}

#[test]
fn test_facade_reset() {
    let mut kc = Keccak::new(224);
    assert_eq!(kc.output_bits(), 224);
    kc.input(b"throwaway").unwrap();
    let mut out = vec![0u8; 28];
    kc.result(&mut out).unwrap();
    kc.reset();
    kc.input(b"").unwrap();
    kc.result(&mut out).unwrap();
    assert_eq!(
        out,
        hex_to_bytes("f71837502ba8e10837bdd8d365adb85591895602fc552b48b7390abd")
    );
}

#[test]
fn test_extendable_output_mode() {
    // Output size 0 selects the 1024/576 extendable-output configuration.
    let kc = Keccak::new(0);
    assert_eq!(kc.output_bits(), 0);
}
