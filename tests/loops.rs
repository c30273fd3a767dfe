use smrng::{IndexError, Rng, SeedInfo};

fn next(r: &Rng, s: u16) -> u16 {
    let mut g = r.with_seed(s);
    g.frame_advance();
    g.seed
}

fn check_structure(r: &Rng) {
    let a = r.analyze();
    assert_eq!(a.seeds.len(), 0x10000);
    let mut seen = vec![0u32; 0x10000];
    for (i, l) in a.loops.iter().enumerate() {
        for (j, &s) in l.seeds.iter().enumerate() {
            seen[s as usize] += 1;
            assert_eq!(a.seeds[s as usize], SeedInfo::Loop { id: i as u16 });
            assert_eq!(next(r, s), l.seeds[(j + 1) % l.seeds.len()]);
        }
        let mut s = l.seeds[0];
        for k in 1..=l.seeds.len() {
            s = next(r, s);
            assert_eq!(s == l.seeds[0], k == l.seeds.len());
        }
    }
    for (i, b) in a.branches.iter().enumerate() {
        let last = *b.seeds.last().unwrap();
        assert_eq!(a.seeds[next(r, last) as usize], SeedInfo::Loop { id: b.loop_id });
        for j in 0..b.seeds.len() - 1 {
            let n = next(r, b.seeds[j]);
            assert!(b.seeds[j + 1..].contains(&n));
        }
        for &s in &b.seeds {
            seen[s as usize] += 1;
            assert_eq!(a.seeds[s as usize], SeedInfo::Branch { id: i as u16 });
            let mut t = s;
            let mut reached = false;
            for _ in 0..b.seeds.len() {
                t = next(r, t);
                if a.seeds[t as usize] == (SeedInfo::Loop { id: b.loop_id }) {
                    reached = true;
                    break;
                }
            }
            assert!(reached);
        }
    }
    assert!(seen.iter().all(|&c| c == 1));
    match a.seeds[r.seed as usize] {
        SeedInfo::Loop { id } | SeedInfo::Branch { id } => assert_eq!(id, 0),
    }
}

#[test]
fn reset_seed_analysis() {
    let a = Rng::reset().analyze();
    assert_eq!(a.seeds[0x0061], SeedInfo::Branch { id: 0 });
    assert_eq!(a.branches.len(), 1);
    assert_eq!(a.branches[0].seeds.len(), 34741);
    assert_eq!(a.branches[0].loop_id, 0);
    assert_eq!(a.branches[0].seeds[0], 0x0011);
    assert_eq!(a.branches[0].seeds.iter().position(|&s| s == 0x0061), Some(23293));
    let lens: Vec<usize> = a.loops.iter().map(|l| l.seeds.len()).collect();
    assert_eq!(lens, vec![6781, 4665, 15378, 1186, 769, 570, 1446]);
    assert_eq!(a.loops[0].seeds[0], 0x0111);
    assert_eq!(a.loops[1].seeds[0], 0x0001);
    assert_eq!(a.rng.seed, 0x0061);
}

#[test]
fn reset_trajectory_enters_loop_zero() {
    let a = Rng::reset().analyze();
    let path = Rng::reset().seeds_until_loop();
    let first_loop_seed = path.iter().position(|&s| matches!(a.seeds[s as usize], SeedInfo::Loop { .. }));
    assert_eq!(first_loop_seed, Some(11448));
    assert_eq!(path[11448], a.loops[0].seeds[0]);
    assert_eq!(path.len() - 11448, a.loops[0].seeds.len());
    assert_eq!(&path[11448..], &a.loops[0].seeds[..]);
    assert_eq!(a.branches[0].loop_id, 0);
    assert!(a.branches[0].seeds.ends_with(&path[..11448]));
}

#[test]
fn polyp_analysis_with_swap() {
    let a = Rng::polyp().analyze();
    let lens: Vec<usize> = a.loops.iter().map(|l| l.seeds.len()).collect();
    assert_eq!(lens, vec![22955, 9, 4147, 74, 311, 50, 29]);
    assert_eq!(a.branches.len(), 1);
    assert_eq!(a.seeds[0x0011], SeedInfo::Branch { id: 0 });
}

#[test]
fn three_calls_per_frame_analysis() {
    let a = Rng { seed: 0, xba: false, calls_per_frame: 3 }.analyze();
    assert_eq!(a.seeds[0], SeedInfo::Loop { id: 0 });
    assert_eq!(a.loops.len(), 15);
    assert_eq!(a.branches.len(), 3);
}

#[test]
fn every_seed_once_and_loop_periods_reset() {
    check_structure(&Rng::reset());
}

#[test]
fn every_seed_once_and_loop_periods_polyp() {
    check_structure(&Rng::polyp());
}

#[test]
fn loop_and_branch_by_index() {
    let a = Rng::reset().analyze();
    let loop_one = a.loops[1].seeds.clone();
    assert_eq!(a.into_loop_seeds(1), Ok(loop_one));
    let a = Rng::reset().analyze();
    let branch = a.branches[0].seeds.clone();
    assert_eq!(a.into_branch_seeds(0), Ok(branch));
}

#[test]
fn loop_index_out_of_range() {
    assert_eq!(Rng::reset().analyze().into_loop_seeds(7), Err(IndexError::LoopOutOfRange { count: 7 }));
}

#[test]
fn branch_index_out_of_range() {
    assert_eq!(Rng::reset().analyze().into_branch_seeds(1), Err(IndexError::BranchOutOfRange { count: 1 }));
}

fn first_keys_increase(r: &Rng) {
    let a = r.analyze();
    let key = |s: u16| if s == r.seed { 0usize } else { s as usize + 1 };
    let mut first = vec![usize::MAX; a.loops.len()];
    for s in 0..=u16::MAX {
        let l = match a.seeds[s as usize] {
            SeedInfo::Loop { id } => id as usize,
            SeedInfo::Branch { id } => a.branches[id as usize].loop_id as usize,
        };
        first[l] = first[l].min(key(s));
    }
    assert_eq!(first[0], 0);
    assert!(first.windows(2).all(|w| w[0] < w[1]));
}

#[test]
fn loops_numbered_in_discovery_order() {
    first_keys_increase(&Rng::reset());
    first_keys_increase(&Rng::polyp());
    first_keys_increase(&Rng { seed: 0x8000, xba: false, calls_per_frame: 3 });
}

#[test]
fn branches_numbered_in_discovery_order() {
    for r in [Rng::reset(), Rng { seed: 0x8000, xba: false, calls_per_frame: 3 }, Rng { seed: 5, xba: true, calls_per_frame: 2 }] {
        let a = r.analyze();
        let key = |s: u16| if s == r.seed { 0usize } else { s as usize + 1 };
        let mut first = vec![usize::MAX; a.branches.len()];
        for s in 0..=u16::MAX {
            if let SeedInfo::Branch { id } = a.seeds[s as usize] {
                first[id as usize] = first[id as usize].min(key(s));
            }
        }
        assert!(first.windows(2).all(|w| w[0] < w[1]));
    }
}

#[test]
fn loops_start_where_first_met() {
    for r in [Rng::reset(), Rng::polyp(), Rng { seed: 0x8000, xba: false, calls_per_frame: 3 }] {
        let a = r.analyze();
        let key = |s: u16| if s == r.seed { 0usize } else { s as usize + 1 };
        for (j, l) in a.loops.iter().enumerate() {
            let first = (0..=u16::MAX)
                .filter(|&s| match a.seeds[s as usize] {
                    SeedInfo::Loop { id } => id as usize == j,
                    SeedInfo::Branch { id } => a.branches[id as usize].loop_id as usize == j,
                })
                .min_by_key(|&s| key(s))
                .unwrap();
            let mut s = first;
            while a.seeds[s as usize] != (SeedInfo::Loop { id: j as u16 }) {
                s = next(&r, s);
            }
            assert_eq!(s, l.seeds[0]);
        }
    }
}
