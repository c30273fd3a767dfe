use smrng::{analyze_correlated, analyze_uncorrelated, Drop, DropAnalysis, DropRolls, DropSet, DropTable, ExplosionDrop, Rng};


fn table(nothing: u8, se: u8, be: u8, mi: u8, su: u8, pb: u8) -> DropTable {
    DropTable {
        nothing,
        small_energy: se,
        big_energy: be,
        missile: mi,
        super_missile: su,
        power_bomb: pb,
        count: None,
        extra: None,
    }
}

fn hopper() -> DropTable {
    table(2, 60, 100, 88, 5, 0)
}

fn kraid_like() -> DropTable {
    DropTable { count: Some(2), extra: Some(ExplosionDrop::Metroid), ..table(10, 50, 50, 100, 30, 15) }
}

const ORDER: [Drop; 6] = [
    Drop::SmallEnergy,
    Drop::BigEnergy,
    Drop::Missile,
    Drop::Nothing,
    Drop::SuperMissile,
    Drop::PowerBomb,
];

#[test]
fn drop_indices_and_tiers() {
    for (i, d) in ORDER.iter().enumerate() {
        assert_eq!(d.index() as usize, i);
        assert_eq!(Drop::from_index(i as u8), *d);
        assert_eq!(d.is_major(), i >= 4);
    }
}

#[test]
fn explosion_parameters() {
    assert_eq!(ExplosionDrop::Metroid.explosion_interval(), 8);
    assert_eq!(ExplosionDrop::Minikraid.explosion_interval(), 8);
    assert_eq!(ExplosionDrop::Metroid.num_explosions(), 5);
    assert_eq!(ExplosionDrop::Minikraid.num_explosions(), 16);
    assert_eq!(ExplosionDrop::Metroid.rng_per_explosion(), 2);
    assert_eq!(ExplosionDrop::Minikraid.rng_per_explosion(), 3);
}

#[test]
fn drop_set_basics() {
    let mut s = DropSet::new();
    assert!(s.is_empty());
    assert_eq!(s.len(), 0);
    assert!(s.insert(Drop::Missile));
    assert!(!s.insert(Drop::Missile));
    assert!(s.insert(Drop::SmallEnergy));
    assert!(s.contains(&Drop::Missile));
    assert!(!s.contains(&Drop::Nothing));
    assert_eq!(s.len(), 2);
    assert_eq!(s.iter(), vec![Drop::SmallEnergy, Drop::Missile]);
    assert!(s.remove(Drop::Missile));
    assert!(!s.remove(Drop::Missile));
    assert_eq!(s.iter(), vec![Drop::SmallEnergy]);
    assert!(!s.is_empty());
}

#[test]
fn drop_set_constants() {
    assert_eq!(DropSet::all().iter(), ORDER.to_vec());
    assert_eq!(DropSet::minor().iter(), ORDER[..4].to_vec());
    assert_eq!(DropSet::major().iter(), ORDER[4..].to_vec());
    assert_eq!(DropSet::health_bomb().iter(), vec![Drop::SmallEnergy, Drop::BigEnergy]);
    assert_eq!(DropSet::from_slice(&[Drop::PowerBomb, Drop::Nothing, Drop::PowerBomb]).iter(), vec![Drop::Nothing, Drop::PowerBomb]);
    assert_eq!(DropSet::all().len(), 6);
}

#[test]
fn drop_set_operations() {
    let a = DropSet::from_slice(&[Drop::SmallEnergy, Drop::Missile, Drop::PowerBomb]);
    let b = DropSet::from_slice(&[Drop::Missile, Drop::Nothing]);
    assert_eq!(a.union(&b).iter(), vec![Drop::SmallEnergy, Drop::Missile, Drop::Nothing, Drop::PowerBomb]);
    assert_eq!(a.intersection(&b).iter(), vec![Drop::Missile]);
    assert_eq!(a.difference(&b).iter(), vec![Drop::SmallEnergy, Drop::PowerBomb]);
    assert_eq!(a.symmetric_difference(&b).iter(), vec![Drop::SmallEnergy, Drop::Nothing, Drop::PowerBomb]);
    assert_eq!(DropSet::all().difference(&DropSet::minor()), DropSet::major());
}

#[test]
fn drop_set_algebra_laws() {
    let sets = [
        DropSet::new(),
        DropSet::all(),
        DropSet::minor(),
        DropSet::health_bomb(),
        DropSet::from_slice(&[Drop::Missile, Drop::PowerBomb]),
    ];
    for a in &sets {
        for b in &sets {
            assert_eq!(a.union(b).intersection(a), *a);
        }
        assert!(a.difference(a).is_empty());
        assert!(a.symmetric_difference(a).is_empty());
    }
}

#[test]
fn weights_by_drop() {
    let t = hopper();
    assert_eq!(t.get(Drop::Nothing), 2);
    assert_eq!(t.get(Drop::SmallEnergy), 60);
    assert_eq!(t.get(Drop::BigEnergy), 100);
    assert_eq!(t.get(Drop::Missile), 88);
    assert_eq!(t.get(Drop::SuperMissile), 5);
    assert_eq!(t.get(Drop::PowerBomb), 0);
}

#[test]
fn small_weight_crosses_first() {
    let t = table(245, 10, 0, 0, 0, 0);
    assert_eq!(t.pick(&DropSet::all(), 5), Drop::SmallEnergy);
    assert_eq!(t.pick(&DropSet::all(), 10), Drop::SmallEnergy);
    assert_eq!(t.pick(&DropSet::all(), 11), Drop::Nothing);
}

#[test]
fn pick_thresholds() {
    let t = hopper();
    let all = DropSet::all();
    let got: Vec<Drop> = [1u16, 60, 61, 160, 161, 248, 249, 250, 251, 255].iter().map(|&r| t.pick(&all, r)).collect();
    assert_eq!(
        got,
        vec![
            Drop::SmallEnergy,
            Drop::SmallEnergy,
            Drop::BigEnergy,
            Drop::BigEnergy,
            Drop::Missile,
            Drop::Missile,
            Drop::Nothing,
            Drop::Nothing,
            Drop::SuperMissile,
            Drop::SuperMissile,
        ]
    );
}

#[test]
fn pick_with_excluded_energy_rescales_minor_weights() {
    let t = hopper();
    let mut poss = DropSet::all();
    poss.remove(Drop::SmallEnergy);
    poss.remove(Drop::BigEnergy);
    let got: Vec<Drop> = [1u16, 50, 100, 150, 200, 250, 255].iter().map(|&r| t.pick(&poss, r)).collect();
    assert_eq!(
        got,
        vec![
            Drop::SmallEnergy,
            Drop::SmallEnergy,
            Drop::SmallEnergy,
            Drop::SmallEnergy,
            Drop::BigEnergy,
            Drop::BigEnergy,
            Drop::BigEnergy,
        ]
    );
}

#[test]
fn pick_with_empty_minor_pool_uses_major_weights() {
    let t = table(0, 0, 0, 0, 20, 30);
    let all = DropSet::all();
    assert_eq!(t.pick(&all, 1), Drop::SuperMissile);
    assert_eq!(t.pick(&all, 20), Drop::SuperMissile);
    assert_eq!(t.pick(&all, 21), Drop::PowerBomb);
    assert_eq!(t.pick(&all, 50), Drop::PowerBomb);
    assert_eq!(t.pick(&all, 51), Drop::Nothing);
}

#[test]
fn roll_one_from_reset() {
    let mut r = Rng::reset();
    assert_eq!(hopper().roll_one(&mut r, &DropSet::all()), Drop::Missile);
    assert_eq!(r.seed, 0x01f6);
}

#[test]
fn roll_single_enemy() {
    let mut r = Rng::reset().with_seed(0x1234);
    assert_eq!(hopper().roll(&mut r, &DropSet::all()), vec![Drop::BigEnergy]);
    assert_eq!(r.seed, 0xc87a);
}

#[test]
fn roll_multiple_with_explosions() {
    let mut r = Rng::reset();
    let got = kraid_like().roll_multiple(&mut r, &DropSet::all(), 2);
    assert_eq!(
        got,
        vec![
            Drop::SuperMissile,
            Drop::SmallEnergy,
            Drop::Nothing,
            Drop::BigEnergy,
            Drop::Missile,
            Drop::Missile,
        ]
    );
    assert_eq!(r.seed, 0xa495);
}

#[test]
fn drop_rolls_pull_one_at_a_time() {
    let t = kraid_like();
    let mut r = Rng::reset();
    let mut rolls = DropRolls::new(2);
    let mut got = Vec::new();
    while let Some(d) = rolls.next(&t, &mut r, &DropSet::all()) {
        got.push(d);
    }
    assert_eq!(got.len(), 6);
    assert_eq!(rolls.next(&t, &mut r, &DropSet::all()), None);
    let mut r2 = Rng::reset();
    assert_eq!(t.roll_multiple(&mut r2, &DropSet::all(), 2), got);
    assert_eq!(r.seed, r2.seed);
}

#[test]
fn ideal_expectations() {
    let t = hopper();
    let all = DropSet::all();
    assert_eq!(t.ideal_drops_per_farm_scaled(Drop::SmallEnergy, &all, 1), 60);
    assert_eq!(t.ideal_drops_per_farm_scaled(Drop::SuperMissile, &all, 1), 5);
    let mut poss = DropSet::all();
    poss.remove(Drop::SmallEnergy);
    poss.remove(Drop::BigEnergy);
    assert_eq!(t.ideal_drops_per_farm_scaled(Drop::Missile, &poss, 1), 244);
    assert_eq!(t.ideal_drops_per_farm_scaled(Drop::Nothing, &poss, 1), 5);
    assert_eq!(t.ideal_drops_per_farm_scaled(Drop::SmallEnergy, &poss, 1), 0);
    let k = kraid_like();
    assert_eq!(k.ideal_drops_per_farm_scaled(Drop::Missile, &all, 7), 2100);
    assert_eq!(k.ideal_drops_per_farm_scaled(Drop::PowerBomb, &all, 7), 315);
}

#[test]
fn ideal_minor_equals_weight() {
    let t = table(245, 10, 0, 0, 0, 0);
    assert_eq!(t.ideal_drops_per_farm_scaled(Drop::SmallEnergy, &DropSet::all(), 1), 10);
    assert_eq!(t.ideal_drops_per_farm_scaled(Drop::Nothing, &DropSet::all(), 1), 245);
}

#[test]
fn correlated_small_seed_set() {
    let a = analyze_correlated(&kraid_like(), &DropSet::all(), 1, Rng::reset(), &[0x0061, 0x0017, 0x0025]);
    assert_eq!(a.seeds, 3);
    assert_eq!(
        (a.small_energy, a.big_energy, a.missile, a.nothing, a.super_missile, a.power_bomb),
        (2, 2, 3, 0, 2, 0)
    );
}

#[test]
fn uncorrelated_small_seed_set() {
    let a = analyze_uncorrelated(&kraid_like(), &DropSet::all(), 1, &[0x0061, 0x0017, 0x0025]);
    assert_eq!(a.seeds, 3);
    assert_eq!(
        (a.small_energy, a.big_energy, a.missile, a.nothing, a.super_missile, a.power_bomb),
        (0, 0, 3, 3, 0, 3)
    );
}

#[test]
fn empty_seed_set() {
    let a = analyze_uncorrelated(&hopper(), &DropSet::all(), 3, &[]);
    assert_eq!(a, DropAnalysis::default());
    let b = analyze_correlated(&hopper(), &DropSet::all(), 3, Rng::reset(), &[]);
    assert_eq!(b, DropAnalysis::new());
}

#[test]
fn ratios_match_weights_over_all_seeds() {
    let seeds: Vec<u16> = (0..=u16::MAX).collect();
    let t = hopper();
    let u = analyze_uncorrelated(&t, &DropSet::all(), 1, &seeds);
    let c = analyze_correlated(&t, &DropSet::all(), 1, Rng::reset(), &seeds);
    for a in [u, c] {
        let total = a.seeds as f64;
        for (count, w) in [
            (a.small_energy, 60.0),
            (a.big_energy, 100.0),
            (a.missile, 88.0),
            (a.nothing, 2.0),
            (a.super_missile, 5.0),
            (a.power_bomb, 0.0),
        ] {
            assert!((count as f64 / total - w / 255.0).abs() < 0.01);
        }
    }
    assert_eq!((u.small_energy, u.big_energy, u.missile, u.nothing, u.super_missile), (15616, 25600, 22528, 512, 1280));
}

#[test]
fn drop_set_cursor_in_canonical_order() {
    let mut it = DropSet::from_slice(&[Drop::PowerBomb, Drop::Nothing, Drop::BigEnergy]).into_iter();
    assert_eq!(it.next(), Some(Drop::BigEnergy));
    assert_eq!(it.next(), Some(Drop::Nothing));
    assert_eq!(it.next(), Some(Drop::PowerBomb));
    assert_eq!(it.next(), None);
    assert_eq!(it.next(), None);
    let mut empty = DropSet::default().into_iter();
    assert_eq!(empty.next(), None);
}

#[test]
fn drop_set_default_is_empty() {
    assert!(DropSet::default().is_empty());
    assert_eq!(DropSet::default(), DropSet::new());
}

#[test]
fn excluded_major_weight_is_not_bounded() {
    let t = table(0, 0, 0, 55, 200, 200);
    let mut poss = DropSet::all();
    poss.remove(Drop::PowerBomb);
    assert_eq!(t.pick(&poss, 50), Drop::Missile);
    assert_eq!(t.pick(&poss, 55), Drop::Missile);
    assert_eq!(t.pick(&poss, 56), Drop::SuperMissile);
    assert_eq!(t.pick(&poss, 255), Drop::SuperMissile);
    assert_eq!(t.ideal_drops_per_farm_scaled(Drop::Missile, &poss, 1), 55);
}
