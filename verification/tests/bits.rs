use hamt::{get_index, BITS_PER_LEVEL, LAST_LEVEL, LEVEL_BIT_MASK, MIN_CAPACITY};

#[test]
fn test_get_index() {
    assert_eq!(get_index(0b00000000000000000000000000000001, 0), 0);
    assert_eq!(get_index(0b00000000000000000000000000000010, 1), 0);
    assert_eq!(get_index(0b00000000000000000000000000000100, 2), 0);
    assert_eq!(get_index(0b10000000000000000000000000000000, 31), 0);

    assert_eq!(get_index(0b00000000000000000000000000101010, 1), 0);
    assert_eq!(get_index(0b00000000000000000000000000101010, 3), 1);
    assert_eq!(get_index(0b00000000000000000000000000101010, 5), 2);
}

#[test]
fn get_index_counts_the_bits_below() {
    assert_eq!(get_index(0xffff_ffff, 31), 31);
    assert_eq!(get_index(0xffff_ffff, 0), 0);
    assert_eq!(get_index(0xffff_ffff, 17), 17);
    assert_eq!(get_index(0x8000_0001, 31), 1);
    assert_eq!(get_index(0xf0f0_f0f0, 4), 0);
    assert_eq!(get_index(0xf0f0_f0f0, 12), 4);
    for mask in [0x1u32, 0xdead_beef, 0x0f0f_0f0f, 0x8000_0000, 0xffff_ffff, 0x1234_5678] {
        for k in 0..32usize {
            if mask & (1u32 << k) != 0 {
                let below = mask & ((1u32 << k) - 1);
                assert_eq!(get_index(mask, k), below.count_ones() as usize);
            }
        }
    }
}

#[test]
fn the_constants_of_the_trie() {
    assert_eq!(BITS_PER_LEVEL, 5);
    assert_eq!(LAST_LEVEL, 12);
    assert_eq!(LEVEL_BIT_MASK, 31);
    assert_eq!(MIN_CAPACITY, 4);
}
