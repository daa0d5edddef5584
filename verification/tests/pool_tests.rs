use fuzzcheck::coverage::{score_from_counter, ComparisonFeature, EdgeFeature};
use fuzzcheck::mutators::arbitrary_binary;
use fuzzcheck::pool::{Feature, Pool, PoolEvent, PoolIndex, SCORE_UNIT};
use rand::{RngExt, SeedableRng};

const TOL: u64 = SCORE_UNIT / 100;

fn close(a: u64, b: u64) -> bool {
    if a > b {
        a - b <= TOL
    } else {
        b - a <= TOL
    }
}

fn e(pc_guard: usize, intensity: u16) -> Feature {
    Feature::edge(pc_guard, intensity)
}

#[test]
fn scenario_a_new_input_with_new_features() {
    let mut pool: Pool<u64> = Pool::default();
    let events = pool.add(1000, 10, vec![], vec![e(0, 0), e(0, 1)]);
    assert_eq!(pool.len(), 1);
    assert_eq!(events.len(), 2);
    assert!(matches!(events[0], PoolEvent::New));
    assert!(matches!(events[1], PoolEvent::Add(1000)));
    // both features share group 0, each with one holder: 2 * 1/(2*1) = 1
    assert!(close(pool.score(), SCORE_UNIT));
    assert_eq!(pool.slab_features.get(0).least_complexity, 10);
    assert_eq!(pool.slab_features.get(1).least_complexity, 10);
}

#[test]
fn scenario_b_mixed_new_and_existing() {
    let mut pool: Pool<u64> = Pool::default();
    let _ = pool.add(1000, 10, vec![], vec![e(0, 0), e(0, 1)]);
    let events = pool.add(2000, 20, vec![0], vec![e(1, 0)]);
    assert_eq!(pool.len(), 2);
    assert_eq!(events.len(), 2);
    assert!(matches!(events[0], PoolEvent::New));
    assert!(matches!(events[1], PoolEvent::Add(2000)));
    // X: 1/(2*2) + 1/(2*1) = 0.75; Y: 1/(2*2) + 1/(1*1) = 1.25
    let x = pool.slab_inputs.get(0).score;
    let y = pool.slab_inputs.get(1).score;
    assert!(close(x, 3 * (SCORE_UNIT / 4)));
    assert!(close(y, SCORE_UNIT + SCORE_UNIT / 4));
    assert!(close(pool.score(), 2 * SCORE_UNIT));
}

#[test]
fn scenario_c_takeover_sweeps_all() {
    let mut pool: Pool<u64> = Pool::default();
    let _ = pool.add(1000, 10, vec![], vec![e(0, 0), e(0, 1)]);
    let _ = pool.add(2000, 20, vec![0], vec![e(1, 0)]);
    let events = pool.add(3000, 5, vec![0, 1, 2], vec![]);
    assert_eq!(pool.len(), 1);
    assert_eq!(events.len(), 3);
    assert!(matches!(events[0], PoolEvent::Replace(2)));
    assert!(matches!(events[1], PoolEvent::Remove(1000)));
    assert!(matches!(events[2], PoolEvent::Remove(2000)));
    // Z: 1/(2*1) + 1/(2*1) + 1/(1*1) = 2
    assert!(close(pool.score(), 2 * SCORE_UNIT));
}

#[test]
fn scenario_d_group_normalization() {
    let mut pool1: Pool<u64> = Pool::default();
    let _ = pool1.add(1, 10, vec![], vec![e(0, 0), e(0, 1), e(0, 2)]);
    let mut pool2: Pool<u64> = Pool::default();
    let _ = pool2.add(2, 10, vec![], vec![e(0, 0)]);
    // three features of one group weigh as much as a single-feature group
    assert!(close(pool1.score(), pool2.score()));
    assert!(close(pool1.score(), SCORE_UNIT));
}

#[test]
fn scenario_f_favored_sampling_rate() {
    let mut pool: Pool<u64> = Pool::with_rng_seed(42);
    let _ = pool.add(1000, 10, vec![], vec![e(0, 0)]);
    pool.add_favored_input(77);
    let mut favored = 0u32;
    for _ in 0..10000 {
        match pool.random_index() {
            PoolIndex::Favored => favored += 1,
            PoolIndex::Normal(k) => assert_eq!(k, 0),
        }
    }
    // expect about a quarter, within two percent
    assert!(favored >= 2300, "favored fraction too low: {}", favored);
    assert!(favored <= 2700, "favored fraction too high: {}", favored);
}

#[test]
fn remove_lowest_drops_the_smallest_score() {
    let mut pool: Pool<u64> = Pool::default();
    let _ = pool.add(1000, 10, vec![], vec![e(0, 0), e(0, 1)]);
    let _ = pool.add(2000, 20, vec![0], vec![e(1, 0)]);
    let before = pool.score();
    let events = pool.remove_lowest_scoring_input();
    assert_eq!(pool.len(), 1);
    assert_eq!(events.len(), 1);
    assert!(matches!(events[0], PoolEvent::Remove(1000)));
    assert!(pool.score() <= before + TOL);
}

#[test]
fn scenario_e_random_admissions_keep_score_monotone() {
    let mut rng = rand::rngs::SmallRng::seed_from_u64(7);
    let mut pool: Pool<u64> = Pool::default();
    let mut next_guard: usize = 0;
    for round in 0..100 {
        let cplx: u64 = rng.random_range(1..100u64);
        let n_new: usize = rng.random_range(1..4usize);
        let mut new_features = vec![];
        for j in 0..n_new {
            new_features.push(e(next_guard, j as u16));
        }
        next_guard += 1;
        let before = pool.score();
        let _ = pool.add(round as u64, cplx, vec![], new_features);
        // adding never decreases the total score, within tolerance
        assert!(pool.score() + TOL >= before, "round {}", round);
        if pool.len() > 3 {
            let before = pool.score();
            let _ = pool.remove_lowest_scoring_input();
            // removing the lowest never increases it, within tolerance
            assert!(pool.score() <= before + TOL, "round {}", round);
        }
    }
    assert!(pool.len() >= 1);
}

#[test]
fn scenario_e_mixed_admissions_and_full_drain() {
    let mut rng = rand::rngs::SmallRng::seed_from_u64(11);
    let mut pool: Pool<u64> = Pool::default();
    let mut next_guard: usize = 0;
    for round in 0..100u64 {
        // a sorted subset of the existing features, by stepping through the
        // sorted features-iteration vector
        let mut existing: Vec<usize> = vec![];
        if pool.features.len() > 0 {
            let stride: usize = rng.random_range(1..4usize);
            let mut j = rng.random_range(0..pool.features.len());
            while j < pool.features.len() && existing.len() < 4 {
                existing.push(pool.features[j].key);
                j += stride;
            }
        }
        // sometimes bring new features too; when none, pick a complexity at
        // most the least complexity of some chosen feature so the input is
        // admissible and takes over witness slots
        let fresh: bool = existing.is_empty() || rng.random_range(0..2u32) == 0;
        let mut new_features = vec![];
        if fresh {
            let n_new: usize = rng.random_range(1..3usize);
            for j in 0..n_new {
                new_features.push(e(next_guard, j as u16));
            }
            next_guard += 1;
        }
        let cplx: u64 = if fresh {
            rng.random_range(1..100u64)
        } else {
            let mut m = u64::MAX;
            for k in existing.iter() {
                let lc = pool.slab_features.get(*k).least_complexity;
                if lc < m {
                    m = lc;
                }
            }
            m
        };
        let before = pool.score();
        let _ = pool.add(round + 1000, cplx, existing, new_features);
        assert!(pool.score() + TOL >= before, "round {}", round);
    }
    // drain the pool completely; the total score never goes up
    while pool.len() > 0 {
        let before = pool.score();
        let _ = pool.remove_lowest_scoring_input();
        assert!(pool.score() <= before + TOL);
    }
    assert_eq!(pool.len(), 0);
    assert_eq!(pool.score(), 0);
}

#[test]
fn counter_bucketing_follows_the_log_scale() {
    assert_eq!(score_from_counter(0), 0);
    assert_eq!(score_from_counter(1), 1);
    assert_eq!(score_from_counter(2), 2);
    assert_eq!(score_from_counter(3), 3);
    assert_eq!(score_from_counter(4), 4);
    assert_eq!(score_from_counter(7), 4);
    assert_eq!(score_from_counter(8), 5);
    assert_eq!(score_from_counter(255), 9);
    assert_eq!(score_from_counter(u16::MAX), 16);
}

#[test]
fn sensor_features_pack_their_fields() {
    let ef = EdgeFeature::new(12, 8);
    assert_eq!(ef.pc_guard, 12);
    assert_eq!(ef.intensity, 5);
    let cf = ComparisonFeature::new(99, 0b1010, 0b1000);
    assert_eq!(cf.pc, 99);
    // one differing bit: bucket of a count of 1 is 1
    assert_eq!(cf.id, 1);
}

#[test]
fn feature_groups_erase_the_payload() {
    let a = e(5, 0);
    let b = e(5, 200);
    let c = e(6, 0);
    assert_eq!(a.group_id(), b.group_id());
    assert_ne!(a.group_id(), c.group_id());
}

#[test]
fn arbitrary_binary_stays_in_range() {
    for step in 0..50 {
        let r = arbitrary_binary(10, 20, step);
        assert!(r >= 10 && r <= 20);
    }
    assert_eq!(arbitrary_binary(7, 7, 3), 7);
}
