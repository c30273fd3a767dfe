use smrng::{rng1, Rng};

#[test]
fn rng1_known_values() {
    assert_eq!(rng1(0x0061), 0x01f6);
    assert_eq!(rng1(0x0000), 0x0111);
    assert_eq!(rng1(0xffff), 0xfd0c);
    assert_eq!(rng1(0x1234), 0x5b15);
}

#[test]
fn presets() {
    let r = Rng::reset();
    assert_eq!((r.seed, r.xba, r.calls_per_frame), (0x0061, false, 1));
    assert_eq!(Rng::beetom().seed, 0x0017);
    assert_eq!(Rng::sidehopper().seed, 0x0025);
    let p = Rng::polyp();
    assert_eq!((p.seed, p.xba, p.calls_per_frame), (0x0011, true, 1));
}

#[test]
fn read_reseed_with_seed() {
    let mut r = Rng::polyp();
    assert_eq!(r.read(), 0x0011);
    r.reseed(0xbeef);
    assert_eq!(r.read(), 0xbeef);
    assert!(r.xba);
    let f = r.with_seed(7);
    assert_eq!((f.seed, f.xba, f.calls_per_frame), (7, true, 1));
    assert_eq!(r.seed, 0xbeef);
}

#[test]
fn roll_steps_and_returns_seed() {
    let mut r = Rng::reset();
    assert_eq!(r.roll(), 0x01f6);
    assert_eq!(r.seed, 0x01f6);
    assert_eq!(r.roll(), rng1(0x01f6));
}

#[test]
fn frame_advance_calls_and_swap() {
    let mut r = Rng { seed: 0x0061, xba: true, calls_per_frame: 2 };
    r.frame_advance();
    assert_eq!(r.seed, 0xdf06);
    let mut r = Rng { seed: 0x0061, xba: true, calls_per_frame: 1 };
    r.frame_advance();
    assert_eq!(r.seed, 0xf601);
    let mut r = Rng { seed: 0x0061, xba: false, calls_per_frame: 0 };
    r.frame_advance();
    assert_eq!(r.seed, 0x0061);
}

#[test]
fn seeds_until_loop_from_reset() {
    let seeds = Rng::reset().seeds_until_loop();
    assert_eq!(seeds.len(), 18229);
    assert_eq!(&seeds[..4], &[0x0061, 0x01f6, 0x06df, 0x1f6c]);
    assert_eq!(*seeds.last().unwrap(), 0x0000);
    let mut sorted = seeds.clone();
    sorted.sort();
    sorted.dedup();
    assert_eq!(sorted.len(), seeds.len());
    let mut r = Rng::reset().with_seed(*seeds.last().unwrap());
    r.frame_advance();
    assert_eq!(seeds.iter().position(|&s| s == r.seed), Some(11448));
}
