use patcher::rolling_hash::RollingHash;

#[test]
fn test_init_deterministic() {
    let data = b"Hello, World!";
    let mut h1 = RollingHash::new();
    h1.init(data);
    let mut h2 = RollingHash::new();
    h2.init(data);
    assert_eq!(h1.digest(), h2.digest());
}

#[test]
fn test_different_data_different_hash() {
    let mut h1 = RollingHash::new();
    h1.init(b"Hello");
    let mut h2 = RollingHash::new();
    h2.init(b"World");
    assert_ne!(h1.digest(), h2.digest());
}

#[test]
fn test_rotate_equals_fresh_init() {
    let data = b"ABCDE";
    let mut rolling = RollingHash::new();
    rolling.init(&data[0..4]);
    rolling.rotate(data[0], data[4]);

    let mut fresh = RollingHash::new();
    fresh.init(&data[1..5]);

    assert_eq!(rolling.digest(), fresh.digest());
}

#[test]
fn init_matches_adler32_of_known_text() {
    let mut h = RollingHash::new();
    h.init(b"Wikipedia");
    assert_eq!(h.digest(), 0x11E6_0398);
    assert_eq!(h.window_size, 9);
}

#[test]
fn new_hash_has_initial_sums() {
    let h = RollingHash::new();
    assert_eq!(h.a, 1);
    assert_eq!(h.b, 0);
    assert_eq!(h.digest(), 1);
}

#[test]
fn rotate_over_full_block_matches_init() {
    let data: Vec<u8> = (0..4097u32).map(|i| (i * 7 % 251) as u8).collect();
    let mut rolling = RollingHash::new();
    rolling.init(&data[0..4096]);
    rolling.rotate(data[0], data[4096]);
    let mut fresh = RollingHash::new();
    fresh.init(&data[1..4097]);
    assert_eq!(rolling.digest(), fresh.digest());
}

#[test]
fn rotate_with_large_bytes_wraps_modulus() {
    let data = [0xFFu8; 600];
    let mut rolling = RollingHash::new();
    rolling.init(&data[0..599]);
    rolling.rotate(0xFF, 0x00);
    let mut window = data[1..599].to_vec();
    window.push(0);
    let mut fresh = RollingHash::new();
    fresh.init(&window);
    assert_eq!(rolling.digest(), fresh.digest());
}
