use snap_coin_pay::ids::{Bytes32, Digest};

fn counting() -> [u8; 32] {
    let mut bytes = [0u8; 32];
    for i in 0..32 {
        bytes[i] = (i as u8) + 1;
    }
    bytes
}

#[test]
fn bytes_survive_a_round_trip() {
    let bytes = counting();
    assert_eq!(Bytes32::from_bytes(&bytes).to_bytes(), bytes);
    assert_eq!(Bytes32::from_bytes(&[0xffu8; 32]).to_bytes(), [0xffu8; 32]);
}

#[test]
fn halves_hold_the_first_and_the_last_sixteen_bytes() {
    let value = Bytes32::from_bytes(&counting());
    assert_eq!(value.left, 0x100f_0e0d_0c0b_0a09_0807_0605_0403_0201u128);
    assert_eq!(value.right, 0x201f_1e1d_1c1b_1a19_1817_1615_1413_1211u128);
    assert_eq!(value.key(), (value.left, value.right));
}

#[test]
fn values_are_equal_exactly_when_their_bytes_are() {
    let mut other = counting();
    other[31] = 0;
    assert_eq!(Bytes32::from_bytes(&counting()), Bytes32::from_bytes(&counting()));
    assert_ne!(Bytes32::from_bytes(&counting()), Bytes32::from_bytes(&other));
    assert_ne!(
        Digest { bytes: Bytes32::from_bytes(&counting()) },
        Digest { bytes: Bytes32::from_bytes(&other) }
    );
}
