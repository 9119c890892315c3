use abt::manual_vec::{add_u8, add_vecu8, mult_u8, u64_vecu8, vecu8_u64};

#[test]
fn product_of_two_bytes() {
    assert_eq!(mult_u8(255, 255), vec![0x01, 0xfe]);
    assert_eq!(mult_u8(16, 16), vec![0, 1]);
    assert_eq!(mult_u8(3, 5), vec![15, 0]);
    assert_eq!(mult_u8(0, 200), vec![0, 0]);
}

#[test]
fn sum_of_two_bytes() {
    assert_eq!(add_u8(255, 255), vec![0xfe, 1]);
    assert_eq!(add_u8(200, 56), vec![0, 1]);
    assert_eq!(add_u8(1, 2), vec![3, 0]);
}

#[test]
fn bytes_of_a_number() {
    assert_eq!(u64_vecu8(0), vec![0]);
    assert_eq!(u64_vecu8(255), vec![255]);
    assert_eq!(u64_vecu8(256), vec![0, 1]);
    assert_eq!(u64_vecu8(0x0102_0304), vec![4, 3, 2, 1]);
    assert_eq!(u64_vecu8(u64::MAX), vec![255; 8]);
}

#[test]
fn number_of_bytes() {
    assert_eq!(vecu8_u64(&Vec::new()), 0);
    assert_eq!(vecu8_u64(&vec![4, 3, 2, 1]), 0x0102_0304);
    assert_eq!(vecu8_u64(&vec![255; 8]), u64::MAX);
    assert_eq!(vecu8_u64(&vec![7, 0, 0, 0, 0, 0, 0, 0, 0, 0, 0]), 7);
}

#[test]
fn sum_carries_into_a_new_byte() {
    assert_eq!(add_vecu8(&vec![255], &vec![1]), vec![0, 1]);
    assert_eq!(add_vecu8(&vec![255, 255], &vec![1]), vec![0, 0, 1]);
    assert_eq!(add_vecu8(&vec![1], &vec![255, 255]), vec![0, 0, 1]);
    assert_eq!(add_vecu8(&Vec::new(), &vec![9, 9]), vec![9, 9]);
    assert_eq!(add_vecu8(&Vec::new(), &Vec::new()), Vec::<u8>::new());
}

#[test]
fn sum_round_trips() {
    let pairs: [(u64, u64); 4] = [(0, 0), (1, u32::MAX as u64), (1 << 40, 1 << 40), (u64::MAX - 5, 5)];
    for (a, b) in pairs {
        assert_eq!(vecu8_u64(&add_vecu8(&u64_vecu8(a), &u64_vecu8(b))), a + b);
    }
}

#[test]
fn sum_has_no_needless_byte() {
    assert_eq!(add_vecu8(&vec![1, 0], &vec![2]), vec![3, 0]);
    assert_eq!(add_vecu8(&vec![200], &vec![55]), vec![255]);
    assert_eq!(add_vecu8(&vec![255, 255], &vec![1]), add_vecu8(&vec![1], &vec![255, 255]));
    assert_eq!(add_vecu8(&vec![0, 0, 0], &vec![0]), vec![0, 0, 0]);
}
