use tezedge_recorder::nonce::{Nonce, NONCE_SIZE};

#[test]
fn nonce_has_twenty_four_bytes() {
    assert_eq!(NONCE_SIZE, 24);
    assert_eq!(Nonce::new([0; 24]).get_bytes().len(), 24);
}

#[test]
fn increment_adds_one_to_the_last_byte() {
    let mut bytes = [0u8; 24];
    bytes[0] = 0x80;
    bytes[23] = 0x41;
    let mut expected = bytes;
    expected[23] = 0x42;
    assert_eq!(Nonce::new(bytes).increment().get_bytes(), expected);
}

#[test]
fn increment_carries_into_the_bytes_before() {
    let mut bytes = [0u8; 24];
    bytes[20] = 1;
    bytes[21] = 0xff;
    bytes[22] = 0xff;
    bytes[23] = 0xff;
    let mut expected = [0u8; 24];
    expected[20] = 2;
    assert_eq!(Nonce::new(bytes).increment().get_bytes(), expected);

    let mut bytes = [0xffu8; 24];
    bytes[0] = 0x12;
    let mut expected = [0u8; 24];
    expected[0] = 0x13;
    assert_eq!(Nonce::new(bytes).increment().get_bytes(), expected);
}

#[test]
fn increment_of_the_last_nonce_is_the_first() {
    assert_eq!(Nonce::new([0xff; 24]).increment().get_bytes(), [0u8; 24]);
}

#[test]
fn increment_leaves_the_nonce_it_was_taken_from() {
    let nonce = Nonce::new([9; 24]);
    let next = nonce.increment();
    assert_eq!(nonce.get_bytes(), [9u8; 24]);
    assert_ne!(next.get_bytes(), nonce.get_bytes());
}

#[test]
fn three_hundred_increments_add_three_hundred() {
    let mut nonce = Nonce::new([0; 24]);
    for _ in 0..300 {
        nonce = nonce.increment();
    }
    let mut expected = [0u8; 24];
    expected[22] = 1;
    expected[23] = 44;
    assert_eq!(nonce.get_bytes(), expected);
}
