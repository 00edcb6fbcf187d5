use rogue_swarm::contacts::{count_flags, resolve_contacts, Contacts, Score};

fn contacts(aliens: Vec<bool>, asteroids: Vec<bool>, carrier: bool, touches: Vec<bool>) -> Contacts {
    Contacts {
        alien_hit_by_swarm: aliens,
        asteroid_hit_by_swarm: asteroids,
        carrier_present: carrier,
        alien_touches_carrier: touches,
    }
}

#[test]
fn destroyed_alien_scores_ten() {
    let c = contacts(vec![false, true, false], vec![], true, vec![false, false, false]);
    let out = resolve_contacts(Score { wave: 1, score: 0 }, &c);
    assert_eq!(out.score, Score { wave: 1, score: 10 });
    assert_eq!(out.despawn_aliens, vec![false, true, false]);
    assert!(!out.carrier_destroyed);
}

#[test]
fn harvested_asteroid_scores_five_and_spawns_ten_boids() {
    let c = contacts(vec![], vec![true, false, true], true, vec![]);
    let out = resolve_contacts(Score { wave: 1, score: 7 }, &c);
    assert_eq!(out.score.score, 17);
    assert_eq!(out.boids_to_spawn, 20);
    assert_eq!(out.despawn_asteroids, vec![true, false, true]);
}

#[test]
fn no_boids_spawn_without_carrier() {
    let c = contacts(vec![true], vec![true], false, vec![true]);
    let out = resolve_contacts(Score { wave: 3, score: 0 }, &c);
    assert_eq!(out.boids_to_spawn, 0);
    assert_eq!(out.score, Score { wave: 3, score: 15 });
    assert!(!out.carrier_destroyed);
    assert_eq!(out.despawn_aliens, vec![true]);
}

#[test]
fn alien_reaching_carrier_resets_game() {
    let c = contacts(vec![true, false, false], vec![true], true, vec![false, false, true]);
    let out = resolve_contacts(Score { wave: 4, score: 500 }, &c);
    assert!(out.carrier_destroyed);
    assert_eq!(out.score, Score { wave: 1, score: 0 });
    assert_eq!(out.despawn_aliens, vec![true, true, true]);
    assert_eq!(out.despawn_asteroids, vec![true]);
    assert_eq!(out.boids_to_spawn, 10);
}

#[test]
fn quiet_tick_changes_nothing() {
    let c = contacts(vec![false, false], vec![false], true, vec![false, false]);
    let out = resolve_contacts(Score { wave: 2, score: 33 }, &c);
    assert_eq!(out.score, Score { wave: 2, score: 33 });
    assert_eq!(out.boids_to_spawn, 0);
    assert_eq!(out.despawn_aliens, vec![false, false]);
    assert!(!out.carrier_destroyed);
}

#[test]
fn counts_flags() {
    assert_eq!(count_flags(&vec![]), 0);
    assert_eq!(count_flags(&vec![true, false, true, true]), 3);
}
