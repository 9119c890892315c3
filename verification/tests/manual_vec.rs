use abt::manual_vec::{add_vecu8, u64_vecu8, vecu8_u64};

#[test]
fn add_test() {
    assert_eq!(13 + 38, vecu8_u64(&add_vecu8(&u64_vecu8(13), &u64_vecu8(38))));

    let n: u64 = 987602;
    let m: u64 = 7038819011183;
    let v1 = u64_vecu8(n);
    let v2 = u64_vecu8(m);
    let v3 = add_vecu8(&v1, &v2);
    assert_eq!(n + m, vecu8_u64(&v3));
}
