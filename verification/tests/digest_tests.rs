use sentinel::digest::{address_from_digest, calculate_keccak_address};

fn hex(text: &str) -> Vec<u8> {
    let digits: Vec<u8> = text
        .bytes()
        .map(|b| match b {
            b'0'..=b'9' => b - b'0',
            b'a'..=b'f' => b - b'a' + 10,
            _ => panic!("not a hex digit"),
        })
        .collect();
    digits.chunks(2).map(|pair| pair[0] * 16 + pair[1]).collect()
}

#[test]
fn address_is_the_tail_of_the_digest() {
    let mut digest = [0u8; 32];
    for (i, byte) in digest.iter_mut().enumerate() {
        *byte = i as u8;
    }
    let address = address_from_digest(&digest);
    let expected: Vec<u8> = (12u8..32).collect();
    assert_eq!(address.to_vec(), expected);
}

#[test]
fn address_of_the_zero_channel() {
    // Keccak-256 of thirty-two zero bytes is
    // 290decd9548b62a8d60345a988386fc84ba6bc95484008f6362f93160ef3e563.
    let address = calculate_keccak_address(&[0u8; 32]);
    assert_eq!(address.to_vec(), hex("88386fc84ba6bc95484008f6362f93160ef3e563"));
}

#[test]
fn different_channels_have_different_addresses() {
    let a = calculate_keccak_address(&[1u8; 32]);
    let b = calculate_keccak_address(&[2u8; 32]);
    assert_ne!(a, b);
    assert_eq!(a, calculate_keccak_address(&[1u8; 32]));
}
