use pathtracer::rand::{rand, Lcg, RandSource};

#[test]
fn test_lcg_determinism() {
    let mut a = Lcg::from_seed(0xDEAD_BEEF);
    let mut b = Lcg::from_seed(0xDEAD_BEEF);
    for _ in 0..1000 {
        assert_eq!(a.next(), b.next());
    }
}

#[test]
fn test_lcg_known_words() {
    let mut g = Lcg::from_seed(42);
    assert_eq!(g.next(), 2279211276);
    assert_eq!(g.next(), 1770001318);
    assert_eq!(g.next(), 2360378237);
    assert_eq!(g.next(), 1015914512);
    assert_eq!(g.next(), 3131334855);
    assert_eq!(g.next(), 4200066137);
}

#[test]
fn test_rand_u64_combines_two_words() {
    let mut g = Lcg::from_seed(42);
    let v: u64 = rand(&mut g);
    assert_eq!(v, 7602097776966107404);
}

#[test]
fn test_rand_masks() {
    let mut g = Lcg::from_seed(42);
    let b: u8 = rand(&mut g);
    assert_eq!(b, (2279211276u32 & 0xFF) as u8);
    let mut g = Lcg::from_seed(42);
    let w: u16 = rand(&mut g);
    assert_eq!(w, (2279211276u32 & 0xFFFF) as u16);
    let mut g = Lcg::from_seed(42);
    let x: u32 = rand(&mut g);
    assert_eq!(x, 2279211276);
    let mut g = Lcg::from_seed(42);
    let t: bool = rand(&mut g);
    assert_eq!(t, 2279211276u32 & 1 == 1);
}

#[test]
fn test_rand_signed() {
    let mut g = Lcg::from_seed(42);
    let v: i32 = rand(&mut g);
    assert_eq!(v, 2279211276u32 as i32);
    let mut g = Lcg::from_seed(42);
    let v: i8 = rand(&mut g);
    assert_eq!(v, (2279211276u32 & 0xFF) as u8 as i8);
    let mut g = Lcg::from_seed(42);
    let v: i16 = rand(&mut g);
    assert_eq!(v, (2279211276u32 & 0xFFFF) as u16 as i16);
    let mut g = Lcg::from_seed(42);
    let v: i64 = rand(&mut g);
    assert_eq!(v, 7602097776966107404u64 as i64);
}

#[test]
fn test_from_time_runs() {
    let mut g = Lcg::from_time();
    let _ = g.next();
}

#[test]
fn test_sysnanos_bounded() {
    assert!(pathtracer::rand::sysnanos() < 1_000_000_000);
}
