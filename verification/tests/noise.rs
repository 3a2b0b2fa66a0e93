use freeport_core::noise::mix3;

#[test]
fn the_hash_of_the_origin_with_seed_nought_is_nought() {
    assert_eq!(mix3(0, 0, 0, 0), 0);
}

#[test]
fn the_hash_has_its_exact_values() {
    assert_eq!(mix3(1, 2, 3, 4), 636_469_290);
    assert_eq!(mix3(-1, -2, -3, 7), 149_049_867);
    assert_eq!(mix3(12_345, -678, 9, 0xDEAD_BEEF), 4_185_295_940);
}

#[test]
fn the_hash_reads_only_the_low_thirty_two_bits_of_a_coordinate() {
    let far = (1i64 << 32) + 5;
    assert_eq!(mix3(far, 2, 3, 4), mix3(5, 2, 3, 4));
    assert_eq!(mix3(-1, 0, 0, 0), mix3(0xFFFF_FFFF, 0, 0, 0));
}

#[test]
fn the_hash_is_a_function_of_its_arguments() {
    for x in -20..20i64 {
        assert_eq!(mix3(x, 3, -7, 11), mix3(x, 3, -7, 11));
    }
    assert_ne!(mix3(1, 2, 3, 4), mix3(1, 2, 3, 5));
}

#[test]
fn the_hash_reads_the_low_thirty_two_bits_and_tells_them_apart() {
    assert_eq!(mix3(5, 7, 9, 3), mix3(5 + (1 << 32), 7, 9, 3));
    assert_eq!(mix3(5, 7, 9, 3), mix3(5, 7 - (1 << 32), 9, 3));
    let mut seen: Vec<u32> = (0..2000).map(|x| mix3(x, 7, 9, 3)).collect();
    seen.sort_unstable();
    seen.dedup();
    assert_eq!(seen.len(), 2000);
}
