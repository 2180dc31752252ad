use sage::uuid::Uuid;

#[test]
fn from_le_bytes_reads_little_endian() {
    let mut bytes = [0u8; 16];
    bytes[0] = 0x01;
    bytes[1] = 0x02;
    bytes[15] = 0xff;
    let u = Uuid::from_le_bytes(bytes);
    assert_eq!(u.as_u128(), 0xff00_0000_0000_0000_0000_0000_0000_0201);
}

#[test]
fn from_be_bytes_reads_big_endian() {
    let mut bytes = [0u8; 16];
    bytes[0] = 0x01;
    bytes[1] = 0x02;
    bytes[15] = 0xff;
    let u = Uuid::from_be_bytes(bytes);
    assert_eq!(u.as_u128(), 0x0102_0000_0000_0000_0000_0000_0000_00ff);
}

#[test]
fn from_be_bytes_is_from_le_bytes_reversed() {
    let bytes: [u8; 16] = [3, 1, 4, 1, 5, 9, 2, 6, 5, 3, 5, 8, 9, 7, 9, 3];
    let mut reversed = bytes;
    reversed.reverse();
    assert_eq!(Uuid::from_be_bytes(bytes), Uuid::from_le_bytes(reversed));
}

#[test]
fn from_ne_bytes_matches_the_native_order() {
    let bytes: [u8; 16] = [0xde, 0xad, 0xbe, 0xef, 0, 1, 2, 3, 4, 5, 6, 7, 8, 9, 10, 11];
    let expected = u128::from_ne_bytes(bytes);
    assert_eq!(Uuid::from_ne_bytes(bytes).as_u128(), expected);
    assert!(Uuid::from_ne_bytes(bytes) == Uuid::from_le_bytes(bytes) || Uuid::from_ne_bytes(bytes) == Uuid::from_be_bytes(bytes));
}

#[test]
fn from_u128_and_as_u128_round_trip() {
    let v = 0x3C1391F7321FA09E9BF1F0E50F9694F3u128;
    assert_eq!(Uuid::from_u128(v).as_u128(), v);
    assert_eq!(Uuid::from_u128(v), Uuid::from_u128(v));
    assert_ne!(Uuid::from_u128(v), Uuid::from_u128(v + 1));
}

#[test]
fn uuids_are_ordered_by_value() {
    assert!(Uuid::from_u128(1) < Uuid::from_u128(2));
    assert!(Uuid::from_u128(u128::MAX) > Uuid::from_u128(0));
}

#[test]
fn schedule_identifiers() {
    assert_eq!(sage::update_schedule().as_u128(), 0x3C1391F7321FA09E9BF1F0E50F9694F3);
    assert_eq!(sage::render_schedule().as_u128(), 0x54e3cde8ae8f72b74c11cba46ad2d491);
    assert_eq!(sage::fixed_update_schedule().as_u128(), 0x97d6c77247982377234523b8f888cd7f);
}
