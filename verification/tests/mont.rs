use abt::mont::reduce;

#[test]
fn reduce_divides_by_r_modulo_n() {
    // 7 * 7 = 49 = 1 modulo 8, and 8 = 1 modulo 7
    assert_eq!(reduce(5, 7, 7, 3, 8), 5);
    // 13 * 5 = 65 = 1 modulo 16; 3 * 16 = 48 = 100 modulo 13
    assert_eq!(reduce(100, 13, 5, 4, 16), 3);
    assert_eq!(reduce(0, 13, 5, 4, 16), 0);
}

#[test]
fn reduce_agrees_with_the_definition() {
    let r: u32 = 16;
    for n in [3u32, 5, 7, 9, 11, 13, 15] {
        let n_prime = (1..r).find(|p| (n * p) % r == 1).unwrap();
        for x in 0..(n * r).min(256) {
            let a = reduce(x as u8, n as u8, n_prime as u8, 4, r as u8) as u32;
            assert!(a < n);
            assert_eq!((a * r) % n, x % n);
        }
    }
}
