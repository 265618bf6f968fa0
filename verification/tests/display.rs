use keccak::display::ValDisplayer;

#[test]
fn test_display_bytes_renders_hex() {
    let mut d = ValDisplayer::new(1);
    d.display_bytes(0, "Data", &[0xAB, 0x01, 0xF0]);
    assert_eq!(d.take_output(), b"Data\nAB 01 F0 \n\n".to_vec());
}

#[test]
fn test_display_level_gates_output() {
    let mut d = ValDisplayer::new(0);
    d.display_bytes(1, "hidden", &[0xFF]);
    assert_eq!(d.take_output(), Vec::<u8>::new());
    d.set_level(2);
    d.display_test(1, "shown");
    assert_eq!(d.take_output(), b"shown\n\n".to_vec());
}

#[test]
fn test_display_bits_lsb_and_msb() {
    let mut d = ValDisplayer::new(1);
    // Four bit positions of 0b0000_0101, least significant bit first.
    d.display_bits(0, "bits", &[0x05, 0x05, 0x05, 0x05], false);
    assert_eq!(d.take_output(), b"bits\n1 0 1 0 \n\n".to_vec());
    // The same, most significant bit first.
    d.display_bits(0, "bits", &[0xA0, 0xA0, 0xA0, 0xA0], true);
    assert_eq!(d.take_output(), b"bits\n1 0 1 0 \n\n".to_vec());
}

#[test]
fn test_display_round_number() {
    let mut d = ValDisplayer::new(3);
    d.display_round_number(2, 17);
    assert_eq!(d.take_output(), b"\n--- Round 17 ---\n\n".to_vec());
}

#[test]
fn test_display_state_words() {
    let mut d = ValDisplayer::new(1);
    let state32 = vec![0u32; 50];
    d.display_state_as_32bit(0, "state", &state32);
    let mut expected: Vec<u8> = Vec::new();
    expected.extend_from_slice(b"state\n");
    for i in 0..25 {
        expected.extend_from_slice(b"00000000:00000000");
        expected.push(if i % 5 == 4 { b'\n' } else { b' ' });
    }
    assert_eq!(d.take_output(), expected);

    let state64 = vec![0x123456789ABCDEF0u64; 25];
    d.display_state_as_64bit(0, "lanes", &state64);
    let mut expected: Vec<u8> = Vec::new();
    expected.extend_from_slice(b"lanes\n");
    for i in 0..25 {
        expected.extend_from_slice(b"123456789ABCDEF0");
        expected.push(if i % 5 == 4 { b'\n' } else { b' ' });
    }
    assert_eq!(d.take_output(), expected);
}

#[test]
fn test_display_state_as_bytes_delegates() {
    let mut d = ValDisplayer::new(1);
    d.display_state_as_bytes(0, "st", &[0x00, 0xFF]);
    assert_eq!(d.take_output(), b"st\n00 FF \n\n".to_vec());
}
