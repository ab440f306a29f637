use morkovmap::bitpack::BitPackablePair;

#[test]
fn pack_u32s() {
    assert_eq!(<(u32, u32) as BitPackablePair<u64>>::pack_val_raw(0u32, 0u32), 0);
    assert_eq!(<(u32, u32) as BitPackablePair<u64>>::pack_val_raw(0u32, 1u32), 1);
    assert_eq!(<(u32, u32) as BitPackablePair<u64>>::pack_val_raw(1u32, 0u32), 4294967296);
    assert_eq!(<(u32, u32) as BitPackablePair<u64>>::pack_val_raw(1u32, 1u32), 4294967297);
    assert_eq!(<(u32, u32) as BitPackablePair<u64>>::pack_val_raw(4294967295, 4294967295), 18446744073709551615);
}

#[test]
fn unpack_u32s() {
    assert_eq!(<(u32, u32) as BitPackablePair<u64>>::unpack_raw(0u64), (0u32, 0u32));
    assert_eq!(<(u32, u32) as BitPackablePair<u64>>::unpack_raw(1u64), (0u32, 1u32));
    assert_eq!(<(u32, u32) as BitPackablePair<u64>>::unpack_raw(4294967296u64), (1u32, 0u32));
    assert_eq!(<(u32, u32) as BitPackablePair<u64>>::unpack_raw(4294967297u64), (1u32, 1u32));
    assert_eq!(<(u32, u32) as BitPackablePair<u64>>::unpack_raw(18446744073709551615u64), (4294967295u32, 4294967295u32));
}

#[test]
fn pack_tuple_matches_pair() {
    assert_eq!(<(u32, u32) as BitPackablePair<u64>>::pack_tup_raw((7, 9)), 7 * 4294967296 + 9);
}
