use niuristic::random::xor128::Xor128;

const XOR128_INV_MAX: f64 = 1.0 / 0xFFFFFFFF_u32 as f64;

#[test]
fn rand_test() {
    let mut mt = Xor128::new(768);
    for _ in 0..100 {
        println!("{}", mt.gen() as f64 * XOR128_INV_MAX);
    }
    let s = (0..100).map(|_| mt.gen() as f64 * XOR128_INV_MAX).sum::<f64>();
    println!("average = {}", s / 100.0);
}

#[test]
fn xor128_first_draw() {
    // x = 123456789, t = x ^ (x << 11), w' = (w ^ (w >> 19)) ^ (t ^ (t >> 8))
    let x: u32 = 123456789;
    let t = x ^ (x << 11);
    let w: u32 = 768;
    let expect = (w ^ (w >> 19)) ^ (t ^ (t >> 8));
    let mut mt = Xor128::new(768);
    assert_eq!(mt.gen(), expect);
}

#[test]
fn xor128_same_seed_same_sequence() {
    let mut a = Xor128::new(42);
    let mut b = Xor128::new(42);
    for _ in 0..50 {
        assert_eq!(a.gen(), b.gen());
    }
}

#[test]
fn rand_u_in_range() {
    let mut mt = Xor128::new(1);
    for a in 1..200u32 {
        assert!(mt.rand_u(a) < a);
    }
    assert_eq!(mt.rand_u(0), 0);
    let mut m2 = Xor128::new(9);
    let g = Xor128::new(9).gen();
    assert_eq!(m2.rand_u(1000), ((g as u64 * 1000) >> 32) as u32);
}

#[test]
fn rand_uu_and_ii_in_range() {
    let mut mt = Xor128::new(5);
    for _ in 0..500 {
        let r = mt.rand_uu(10, 20);
        assert!(10 <= r && r < 20);
        let s = mt.rand_ii(-7, 3);
        assert!(-7 <= s && s < 3);
    }
    assert_eq!(mt.rand_uu(4, 4), 4);
    assert_eq!(mt.rand_ii(-2, -2), -2);
}

#[test]
fn rand_ii_wide_span() {
    let mut mt = Xor128::new(99);
    for _ in 0..500 {
        let r = mt.rand_ii(i32::MIN, i32::MAX);
        assert!(r < i32::MAX);
        let s = mt.rand_ii(-2_000_000_000, 2_000_000_000);
        assert!(-2_000_000_000 <= s && s < 2_000_000_000);
    }
}
