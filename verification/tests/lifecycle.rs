use particle_engine::{
    DrawCall, EngineError, Fate, Particle, ParticleEngine, SlotUpdate, MAX_PARTICLES,
    PARTICLE_LIFE, QUAD_VERTICES,
};

fn engine(capacity: usize) -> ParticleEngine {
    match ParticleEngine::new(capacity) {
        Ok(engine) => engine,
        Err(error) => panic!("no engine of {} slots: {:?}", capacity, error),
    }
}

fn lives(engine: &ParticleEngine) -> Vec<u32> {
    let mut all = Vec::new();
    for slot in 0..engine.capacity() {
        match engine.particle(slot) {
            Some(particle) => all.push(particle.life),
            None => panic!("slot {} is missing", slot),
        }
    }
    all
}

fn live_slots(engine: &ParticleEngine) -> usize {
    lives(engine).iter().filter(|life| **life > 0).count()
}

fn survived(slot: usize) -> SlotUpdate {
    SlotUpdate { slot, fate: Fate::Survived }
}

fn expired(slot: usize) -> SlotUpdate {
    SlotUpdate { slot, fate: Fate::Expired }
}

#[test]
fn new_engine_is_empty() {
    let e = engine(4);
    assert_eq!(e.capacity(), 4);
    assert_eq!(e.write_cursor(), 0);
    assert_eq!(e.live_count(), 0);
    assert_eq!(e.first_live_hint(), None);
    assert_eq!(lives(&e), vec![0, 0, 0, 0]);
}

#[test]
fn new_engine_without_slots_is_refused() {
    assert!(matches!(ParticleEngine::new(0), Err(EngineError::InvariantViolation)));
}

#[test]
fn new_engine_of_default_capacity() {
    let e = engine(MAX_PARTICLES);
    assert_eq!(e.capacity(), 100000);
    assert_eq!(e.live_count(), 0);
}

#[test]
fn particle_outside_the_ring_is_none() {
    let e = engine(3);
    assert_eq!(e.particle(2), Some(Particle { life: 0 }));
    assert_eq!(e.particle(3), None);
    assert_eq!(e.particle(usize::MAX), None);
}

#[test]
fn allocate_takes_the_cursor_slot() {
    let mut e = engine(4);
    assert_eq!(e.allocate(Particle { life: 7 }), 0);
    assert_eq!(e.write_cursor(), 1);
    assert_eq!(e.live_count(), 1);
    assert_eq!(e.first_live_hint(), Some(0));
    assert_eq!(e.allocate(Particle { life: 9 }), 1);
    assert_eq!(e.write_cursor(), 2);
    assert_eq!(e.live_count(), 2);
    assert_eq!(e.first_live_hint(), Some(0));
    assert_eq!(lives(&e), vec![7, 9, 0, 0]);
}

#[test]
fn allocation_after_a_full_ring_overwrites_slot_zero() {
    let mut e = engine(4);
    let mut slots = Vec::new();
    for life in 10..14 {
        slots.push(e.allocate(Particle { life }));
    }
    assert_eq!(slots, vec![0, 1, 2, 3]);
    assert_eq!(e.write_cursor(), 0);
    assert_eq!(lives(&e), vec![10, 11, 12, 13]);
    assert_eq!(e.allocate(Particle { life: 99 }), 0);
    assert_eq!(lives(&e), vec![99, 11, 12, 13]);
    assert_eq!(e.write_cursor(), 1);
}

#[test]
fn cursor_wraps_in_a_ring_of_one() {
    let mut e = engine(1);
    assert_eq!(e.allocate(Particle { life: 3 }), 0);
    assert_eq!(e.write_cursor(), 0);
    assert_eq!(e.allocate(Particle { life: 5 }), 0);
    assert_eq!(e.write_cursor(), 0);
    assert_eq!(lives(&e), vec![5]);
    assert_eq!(e.live_count(), 2);
}

#[test]
fn many_allocations_never_fail() {
    let mut e = engine(7);
    for n in 0..1000usize {
        assert_eq!(e.allocate(Particle { life: 1 }), n % 7);
    }
    assert_eq!(e.live_count(), 1000);
    assert_eq!(e.write_cursor(), 1000 % 7);
}

#[test]
fn create_particle_has_the_standard_life() {
    let mut e = engine(2);
    assert_eq!(PARTICLE_LIFE, 120);
    assert_eq!(e.create_particle(), 0);
    assert_eq!(e.create_particle(), 1);
    assert_eq!(e.create_particle(), 0);
    assert_eq!(lives(&e), vec![120, 120]);
    assert_eq!(e.live_count(), 3);
    assert_eq!(e.first_live_hint(), Some(0));
}

#[test]
fn three_particles_of_life_two() {
    let mut e = engine(4);
    for _ in 0..3 {
        e.allocate(Particle { life: 2 });
    }
    assert_eq!(lives(&e), vec![2, 2, 2, 0]);

    let first = e.update();
    assert_eq!(first.updates, vec![survived(0), survived(1), survived(2)]);
    assert_eq!(first.visited, 3);
    assert_eq!(lives(&e), vec![1, 1, 1, 0]);
    assert_eq!(e.live_count(), 3);
    assert_eq!(e.first_live_hint(), Some(0));

    let second = e.update();
    assert_eq!(second.updates, vec![expired(0), expired(1), expired(2)]);
    assert_eq!(second.visited, 3);
    assert_eq!(lives(&e), vec![0, 0, 0, 0]);
    assert_eq!(e.live_count(), 0);
    assert_eq!(e.first_live_hint(), None);

    let third = e.update();
    assert_eq!(third.updates, vec![]);
    assert_eq!(third.visited, 0);
    assert_eq!(lives(&e), vec![0, 0, 0, 0]);
    assert_eq!(e.live_count(), 0);
    assert_eq!(e.write_cursor(), 3);
}

#[test]
fn particle_of_life_one_dies_in_one_update() {
    let mut e = engine(4);
    e.allocate(Particle { life: 1 });
    assert_eq!(e.live_count(), 1);
    let report = e.update();
    assert_eq!(report.updates, vec![expired(0)]);
    assert_eq!(report.visited, 1);
    assert_eq!(e.particle(0), Some(Particle { life: 0 }));
    assert_eq!(e.live_count(), 0);
}

#[test]
fn life_falls_by_one_per_update_and_stops_at_zero() {
    let mut e = engine(2);
    e.allocate(Particle { life: 3 });
    e.allocate(Particle { life: 5 });
    let mut seen = Vec::new();
    for _ in 0..7 {
        e.update();
        seen.push(lives(&e));
    }
    assert_eq!(
        seen,
        vec![
            vec![2, 4],
            vec![1, 3],
            vec![0, 2],
            vec![0, 1],
            vec![0, 0],
            vec![0, 0],
            vec![0, 0],
        ]
    );
}

#[test]
fn dead_slot_is_never_listed_again() {
    let mut e = engine(3);
    e.allocate(Particle { life: 1 });
    e.allocate(Particle { life: 4 });
    let first = e.update();
    assert_eq!(first.updates, vec![expired(0), survived(1)]);
    for _ in 0..5 {
        let report = e.update();
        assert!(report.updates.iter().all(|update| update.slot != 0));
        assert_eq!(e.particle(0), Some(Particle { life: 0 }));
    }
    assert_eq!(lives(&e), vec![0, 0, 0]);
}

#[test]
fn update_of_an_empty_engine_is_a_no_op() {
    let mut e = engine(5);
    let report = e.update();
    assert_eq!(report.updates, vec![]);
    assert_eq!(report.visited, 0);
    assert_eq!(e.live_count(), 0);
    assert_eq!(e.write_cursor(), 0);
    assert_eq!(e.first_live_hint(), None);
}

#[test]
fn hint_is_cleared_when_nothing_survives() {
    let mut e = engine(4);
    e.allocate(Particle { life: 1 });
    e.allocate(Particle { life: 2 });
    e.update();
    assert_eq!(e.first_live_hint(), Some(1));
    e.update();
    assert_eq!(e.first_live_hint(), None);
    e.allocate(Particle { life: 1 });
    assert_eq!(e.first_live_hint(), Some(2));
    e.update();
    assert_eq!(e.first_live_hint(), None);
    assert_eq!(e.live_count(), 0);
}

#[test]
fn hint_moves_to_the_first_survivor() {
    let mut e = engine(5);
    e.allocate(Particle { life: 1 });
    e.allocate(Particle { life: 1 });
    e.allocate(Particle { life: 3 });
    e.allocate(Particle { life: 3 });
    let report = e.update();
    assert_eq!(report.updates, vec![expired(0), expired(1), survived(2), survived(3)]);
    assert_eq!(e.first_live_hint(), Some(2));
    assert_eq!(e.live_count(), 2);
    let next = e.update();
    assert_eq!(next.updates, vec![survived(2), survived(3)]);
    assert_eq!(next.visited, 2);
}

#[test]
fn stale_hint_loses_no_particle() {
    let mut e = engine(3);
    e.allocate(Particle { life: 1 });
    e.allocate(Particle { life: 9 });
    e.allocate(Particle { life: 9 });
    e.update();
    assert_eq!(e.first_live_hint(), Some(1));
    assert_eq!(e.allocate(Particle { life: 9 }), 0);
    assert_eq!(e.allocate(Particle { life: 0 }), 1);
    assert_eq!(e.first_live_hint(), Some(1));
    assert_eq!(lives(&e), vec![9, 0, 8]);
    assert_eq!(e.live_count(), 4);
    let report = e.update();
    assert_eq!(report.updates, vec![survived(2), survived(0)]);
    assert_eq!(report.visited, 3);
    assert_eq!(lives(&e), vec![8, 0, 7]);
    assert_eq!(e.first_live_hint(), Some(2));
    assert_eq!(e.live_count(), 4);
}

#[test]
fn allocation_keeps_an_earlier_hint() {
    let mut e = engine(4);
    e.allocate(Particle { life: 1 });
    e.allocate(Particle { life: 5 });
    e.update();
    assert_eq!(e.first_live_hint(), Some(1));
    assert_eq!(e.allocate(Particle { life: 5 }), 2);
    assert_eq!(e.first_live_hint(), Some(1));
}

#[test]
fn scan_wraps_round_to_the_slots_before_the_hint() {
    let mut e = engine(4);
    e.allocate(Particle { life: 1 });
    e.allocate(Particle { life: 5 });
    e.update();
    assert_eq!(e.first_live_hint(), Some(1));
    assert_eq!(e.allocate(Particle { life: 5 }), 2);
    assert_eq!(e.allocate(Particle { life: 5 }), 3);
    assert_eq!(e.allocate(Particle { life: 5 }), 0);
    assert_eq!(e.live_count(), 4);
    assert_eq!(lives(&e), vec![5, 4, 5, 5]);
    let report = e.update();
    assert_eq!(report.updates, vec![survived(1), survived(2), survived(3), survived(0)]);
    assert_eq!(report.visited, 4);
    assert_eq!(lives(&e), vec![4, 3, 4, 4]);
    assert_eq!(e.first_live_hint(), Some(1));
    assert_eq!(e.live_count(), 4);
}

#[test]
fn scan_stops_after_the_last_live_slot() {
    let mut e = engine(100);
    for _ in 0..3 {
        e.allocate(Particle { life: 10 });
    }
    let report = e.update();
    assert_eq!(report.updates.len(), 3);
    assert_eq!(report.visited, 3);
}

#[test]
fn scan_passes_over_dead_slots_between_live_ones() {
    let mut e = engine(6);
    e.allocate(Particle { life: 4 });
    e.allocate(Particle { life: 1 });
    e.allocate(Particle { life: 1 });
    e.allocate(Particle { life: 4 });
    e.update();
    assert_eq!(lives(&e), vec![3, 0, 0, 3, 0, 0]);
    assert_eq!(e.live_count(), 2);
    let report = e.update();
    assert_eq!(report.updates, vec![survived(0), survived(3)]);
    assert_eq!(report.visited, 4);
}

#[test]
fn scan_that_wraps_stops_early_before_the_hint() {
    let mut e = engine(6);
    for life in [1, 1, 1, 1, 9, 9] {
        e.allocate(Particle { life });
    }
    e.update();
    assert_eq!(e.first_live_hint(), Some(4));
    assert_eq!(e.live_count(), 2);
    assert_eq!(e.allocate(Particle { life: 9 }), 0);
    assert_eq!(e.live_count(), 3);
    let report = e.update();
    assert_eq!(report.updates, vec![survived(4), survived(5), survived(0)]);
    assert_eq!(report.visited, 3);
    assert_eq!(e.first_live_hint(), Some(4));
}

#[test]
fn particle_born_dead_is_passed_over() {
    let mut e = engine(3);
    assert_eq!(e.allocate(Particle { life: 0 }), 0);
    assert_eq!(e.live_count(), 1);
    assert_eq!(e.first_live_hint(), Some(0));
    let report = e.update();
    assert_eq!(report.updates, vec![]);
    assert_eq!(report.visited, 3);
    assert_eq!(lives(&e), vec![0, 0, 0]);
    assert_eq!(e.live_count(), 1);
    assert_eq!(e.first_live_hint(), None);
}

#[test]
fn overwriting_a_live_particle_overcounts() {
    let mut e = engine(2);
    e.allocate(Particle { life: 3 });
    e.allocate(Particle { life: 3 });
    e.allocate(Particle { life: 2 });
    assert_eq!(lives(&e), vec![2, 3]);
    assert_eq!(e.live_count(), 3);
    assert_eq!(live_slots(&e), 2);
    let report = e.update();
    assert_eq!(report.updates, vec![survived(0), survived(1)]);
    assert_eq!(report.visited, 2);
    assert_eq!(e.live_count(), 3);
    let report = e.update();
    assert_eq!(report.updates, vec![expired(0), survived(1)]);
    assert_eq!(e.live_count(), 2);
    let report = e.update();
    assert_eq!(report.updates, vec![expired(1)]);
    assert_eq!(report.visited, 2);
    assert_eq!(e.live_count(), 1);
    assert_eq!(live_slots(&e), 0);
}

#[test]
fn live_count_is_exact_when_allocations_fill_free_slots() {
    let mut e = engine(8);
    let mut tick = 0u32;
    for round in 0..40 {
        for _ in 0..2 {
            let free = e.particle(e.write_cursor()) == Some(Particle { life: 0 });
            if free {
                tick += 1;
                e.allocate(Particle { life: 1 + tick % 3 });
            }
        }
        assert_eq!(e.live_count(), live_slots(&e), "round {}", round);
        let report = e.update();
        assert_eq!(e.live_count(), live_slots(&e), "round {}", round);
        assert!(report.visited <= e.capacity());
    }
}

#[test]
fn update_matches_a_scan_of_every_slot() {
    let mut e = engine(16);
    let mut seed: u32 = 12345;
    for _ in 0..300 {
        seed = seed.wrapping_mul(1103515245).wrapping_add(12345);
        let births = (seed >> 16) % 4;
        for _ in 0..births {
            seed = seed.wrapping_mul(1103515245).wrapping_add(12345);
            e.allocate(Particle { life: (seed >> 16) % 6 });
        }
        let before = lives(&e);
        let count_before = e.live_count();
        let report = e.update();
        let expected: Vec<u32> = before.iter().map(|life| life.saturating_sub(1)).collect();
        assert_eq!(lives(&e), expected);
        let alive = before.iter().filter(|life| **life > 0).count();
        let dying = before.iter().filter(|life| **life == 1).count();
        assert_eq!(report.updates.len(), alive);
        assert!(report.updates.len() <= count_before);
        assert!(report.visited <= e.capacity());
        assert_eq!(e.live_count(), count_before - dying);
        assert!(e.live_count() >= live_slots(&e));
        for update in &report.updates {
            assert!(before[update.slot] > 0);
            let fate = if before[update.slot] > 1 { Fate::Survived } else { Fate::Expired };
            assert_eq!(update.fate, fate);
        }
        let mut listed: Vec<usize> = report.updates.iter().map(|update| update.slot).collect();
        listed.sort();
        listed.dedup();
        assert_eq!(listed.len(), alive);
    }
}

#[test]
fn render_draws_one_quad_per_slot() {
    let mut e = engine(9);
    let draw = DrawCall { vertices: 6, instances: 9, depth_test: true, alpha_blend: true };
    assert_eq!(e.render(), draw);
    e.allocate(Particle { life: 2 });
    e.update();
    assert_eq!(e.render(), draw);
    assert_eq!(e.render().vertices, QUAD_VERTICES);
}
