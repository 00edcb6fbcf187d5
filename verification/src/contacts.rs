use vstd::prelude::*;
use vstd::multiset::Multiset;

verus! {

/// Points for an alien that the swarm destroys.
pub const ALIEN_POINTS: u64 = 10;

/// Points for an asteroid that the swarm harvests.
pub const ASTEROID_POINTS: u64 = 5;

/// New nanobots that one harvested asteroid spawns around the carrier.
pub const BOIDS_PER_ASTEROID: u32 = 10;

/// The running score of a game: the wave it is in and its points.
#[derive(Clone, Copy, Debug, PartialEq, Eq)]
pub struct Score {
    pub wave: u32,
    pub score: u64,
}

/// Number of `true` entries of a sequence of flags.
pub open spec fn count_true(s: Seq<bool>) -> nat
    decreases s.len(),
{
    if s.len() == 0 {
        0
    } else {
        count_true(s.drop_last()) + if s.last() { 1nat } else { 0nat }
    }
}

/// Counts the `true` entries of `flags`.
pub fn count_flags(flags: &Vec<bool>) -> (n: usize)
    ensures
        n == count_true(flags@),
{
    let mut n: usize = 0;
    let mut i: usize = 0;
    while i < flags.len()
        invariant
            i <= flags.len(),
            n == count_true(flags@.take(i as int)),
            n <= i,
        decreases flags.len() - i,
    {
        assert(flags@.take(i as int + 1).drop_last() =~= flags@.take(i as int));
        if flags[i] {
            n = n + 1;
        }
        i = i + 1;
    }
    assert(flags@.take(flags.len() as int) =~= flags@);
    n
}


/// A count over a prefix never exceeds the count over a longer prefix, nor
/// the count over the whole sequence.
pub proof fn lemma_count_true_prefix(s: Seq<bool>, i: int, j: int)
    requires
        0 <= i <= j <= s.len(),
    ensures
        count_true(s.take(i)) <= count_true(s.take(j)),
        count_true(s.take(j)) <= count_true(s),
    decreases j - i,
{
    lemma_count_true_take_le(s, j);
    if i < j {
        lemma_count_true_prefix(s, i, j - 1);
        assert(s.take(j).drop_last() =~= s.take(j - 1));
    }
}

proof fn lemma_count_true_take_le(s: Seq<bool>, j: int)
    requires
        0 <= j <= s.len(),
    ensures
        count_true(s.take(j)) <= count_true(s),
    decreases s.len() - j,
{
    if j < s.len() {
        lemma_count_true_take_le(s, j + 1);
        assert(s.take(j + 1).drop_last() =~= s.take(j));
    } else {
        assert(s.take(j) =~= s);
    }
}

/// What touched what during one tick of the simulation. The proximity tests
/// themselves are made on the entities' positions by the caller; each list
/// holds one flag per alien or per asteroid, in the same order as the
/// entities are listed.
pub struct Contacts {
    /// `alien_hit_by_swarm[i]`: some nanobot came within reach of alien `i`.
    pub alien_hit_by_swarm: Vec<bool>,
    /// `asteroid_hit_by_swarm[i]`: some nanobot came within reach of asteroid `i`.
    pub asteroid_hit_by_swarm: Vec<bool>,
    /// Whether the carrier exists.
    pub carrier_present: bool,
    /// `alien_touches_carrier[i]`: alien `i` came within reach of the carrier.
    pub alien_touches_carrier: Vec<bool>,
}

/// What a tick's contacts lead to.
pub struct TickOutcome {
    /// The score after the tick.
    pub score: Score,
    /// `despawn_aliens[i]`: alien `i` is removed.
    pub despawn_aliens: Vec<bool>,
    /// `despawn_asteroids[i]`: asteroid `i` is removed.
    pub despawn_asteroids: Vec<bool>,
    /// How many new nanobots are spawned around the carrier.
    pub boids_to_spawn: u32,
    /// Whether an alien reached the carrier, which resets the game.
    pub carrier_destroyed: bool,
}

/// Whether the carrier is destroyed by the given contacts.
pub open spec fn spec_carrier_destroyed(carrier_present: bool, touches: Seq<bool>) -> bool {
    carrier_present && count_true(touches) > 0
}

/// The score after a tick in which `kills` aliens were destroyed and
/// `harvests` asteroids harvested.
pub open spec fn spec_next_score(score: Score, kills: nat, harvests: nat, destroyed: bool) -> Score {
    if destroyed {
        Score { wave: 1, score: 0 }
    } else {
        Score {
            wave: score.wave,
            score: (score.score + ALIEN_POINTS * kills + ASTEROID_POINTS * harvests) as u64,
        }
    }
}

/// Points only ever grow, and the wave stays, until an alien reaches the
/// carrier; then the game starts over at wave 1 with no points.
pub proof fn lemma_score_grows_until_reset(score: Score, kills: nat, harvests: nat, destroyed: bool)
    requires
        score.score + ALIEN_POINTS * kills + ASTEROID_POINTS * harvests <= u64::MAX,
    ensures
        !destroyed ==> spec_next_score(score, kills, harvests, destroyed).score >= score.score,
        !destroyed ==> spec_next_score(score, kills, harvests, destroyed).wave == score.wave,
        !destroyed && kills + harvests > 0 ==> spec_next_score(score, kills, harvests, destroyed).score
            > score.score,
        destroyed ==> spec_next_score(score, kills, harvests, destroyed) == (Score { wave: 1, score: 0 }),
{
}

/// `count_true` is the number of `true` entries: how often `true` occurs.
pub proof fn lemma_count_true_is_occurrences(s: Seq<bool>)
    ensures
        count_true(s) == s.to_multiset().count(true),
        count_true(s.push(true)) == count_true(s) + 1,
        count_true(s.push(false)) == count_true(s),
        count_true(Seq::<bool>::empty()) == 0,
    decreases s.len(),
{
    broadcast use vstd::multiset::group_multiset_axioms;
    broadcast use vstd::seq_lib::group_to_multiset_ensures;

    assert(s.push(true).drop_last() =~= s);
    assert(s.push(false).drop_last() =~= s);
    if s.len() == 0 {
        assert(s.to_multiset() =~= Multiset::empty());
    } else {
        lemma_count_true_is_occurrences(s.drop_last());
        assert(s.drop_last().push(s.last()) =~= s);
    }
}

/// The carrier is destroyed exactly when it exists and some alien, whichever
/// it is, touches it.
pub proof fn lemma_carrier_destroyed_iff_some_alien_touches(carrier_present: bool, touches: Seq<bool>)
    ensures
        spec_carrier_destroyed(carrier_present, touches) <==> (carrier_present && exists|i: int|
            0 <= i < touches.len() && #[trigger] touches[i]),
    decreases touches.len(),
{
    if touches.len() > 0 {
        let d = touches.drop_last();
        lemma_carrier_destroyed_iff_some_alien_touches(true, d);
        if exists|i: int| 0 <= i < d.len() && #[trigger] d[i] {
            let i = choose|i: int| 0 <= i < d.len() && #[trigger] d[i];
            assert(touches[i]);
        }
        if exists|i: int| 0 <= i < touches.len() && #[trigger] touches[i] {
            let i = choose|i: int| 0 <= i < touches.len() && #[trigger] touches[i];
            if i < touches.len() - 1 {
                assert(d[i]);
            }
        }
    }
}

/// Without a reset, each alien destroyed is worth exactly 10 points and each
/// asteroid harvested exactly 5, however many there are in one tick; a tick
/// without kills or harvests leaves the score as it was, and the wave never
/// changes.
pub proof fn lemma_each_kill_and_harvest_scores(score: Score, kills: Seq<bool>, harvests: Seq<bool>, b: bool)
    requires
        score.score + ALIEN_POINTS * (count_true(kills) + 1) + ASTEROID_POINTS * (count_true(harvests)
            + 1) <= u64::MAX,
    ensures
        spec_next_score(score, count_true(kills.push(b)), count_true(harvests), false).score
            == spec_next_score(score, count_true(kills), count_true(harvests), false).score + if b {
            ALIEN_POINTS
        } else {
            0
        },
        spec_next_score(score, count_true(kills), count_true(harvests.push(b)), false).score
            == spec_next_score(score, count_true(kills), count_true(harvests), false).score + if b {
            ASTEROID_POINTS
        } else {
            0
        },
        spec_next_score(score, count_true(Seq::<bool>::empty()), count_true(Seq::<bool>::empty()), false)
            == score,
        spec_next_score(score, count_true(kills), count_true(harvests), false).wave == score.wave,
        spec_next_score(score, count_true(kills), count_true(harvests), false).score == score.score
            + 10 * kills.to_multiset().count(true) + 5 * harvests.to_multiset().count(true),
{
    lemma_count_true_is_occurrences(kills);
    lemma_count_true_is_occurrences(harvests);
}

/// Applies the contacts of one tick: every alien that the swarm reached is
/// destroyed for 10 points, every asteroid that the swarm reached is harvested
/// for 5 points and, when the carrier exists, yields 10 new nanobots; if any
/// alien reached the carrier, the game is reset to wave 1 with no points and
/// every alien is removed.
pub fn resolve_contacts(score: Score, contacts: &Contacts) -> (out: TickOutcome)
    requires
        contacts.alien_touches_carrier@.len() == contacts.alien_hit_by_swarm@.len(),
        score.score + ALIEN_POINTS * count_true(contacts.alien_hit_by_swarm@) + ASTEROID_POINTS
            * count_true(contacts.asteroid_hit_by_swarm@) <= u64::MAX,
        BOIDS_PER_ASTEROID * count_true(contacts.asteroid_hit_by_swarm@) <= i32::MAX,
    ensures
        out.carrier_destroyed == spec_carrier_destroyed(
            contacts.carrier_present,
            contacts.alien_touches_carrier@,
        ),
        out.score == spec_next_score(
            score,
            count_true(contacts.alien_hit_by_swarm@),
            count_true(contacts.asteroid_hit_by_swarm@),
            out.carrier_destroyed,
        ),
        out.carrier_destroyed <==> (contacts.carrier_present && exists|i: int|
            0 <= i < contacts.alien_touches_carrier@.len() && #[trigger] contacts.alien_touches_carrier@[i]),
        out.carrier_destroyed ==> out.score == (Score { wave: 1, score: 0 }),
        !out.carrier_destroyed ==> out.score.wave == score.wave,
        !out.carrier_destroyed ==> out.score.score == score.score + 10
            * contacts.alien_hit_by_swarm@.to_multiset().count(true) + 5
            * contacts.asteroid_hit_by_swarm@.to_multiset().count(true),
        out.boids_to_spawn == (if contacts.carrier_present {
            10 * contacts.asteroid_hit_by_swarm@.to_multiset().count(true)
        } else {
            0
        }),
        out.despawn_aliens@.len() == contacts.alien_hit_by_swarm@.len(),
        forall|i: int|
            0 <= i < out.despawn_aliens@.len() ==> #[trigger] out.despawn_aliens@[i] == (
            contacts.alien_hit_by_swarm@[i] || out.carrier_destroyed),
        out.despawn_asteroids@ == contacts.asteroid_hit_by_swarm@,
        out.boids_to_spawn == (if contacts.carrier_present {
            BOIDS_PER_ASTEROID * count_true(contacts.asteroid_hit_by_swarm@)
        } else {
            0
        }),
{
    let ghost kills = count_true(contacts.alien_hit_by_swarm@);
    let ghost harvests = count_true(contacts.asteroid_hit_by_swarm@);
    proof {
        lemma_count_true_is_occurrences(contacts.alien_hit_by_swarm@);
        lemma_count_true_is_occurrences(contacts.asteroid_hit_by_swarm@);
        lemma_carrier_destroyed_iff_some_alien_touches(
            contacts.carrier_present,
            contacts.alien_touches_carrier@,
        );
    }
    let n_aliens = contacts.alien_hit_by_swarm.len();
    let mut points: u64 = score.score;
    let mut despawn_aliens: Vec<bool> = Vec::new();

    // Aliens that the swarm reached are destroyed.
    let mut i: usize = 0;
    while i < n_aliens
        invariant
            n_aliens == contacts.alien_hit_by_swarm@.len(),
            i <= n_aliens,
            kills == count_true(contacts.alien_hit_by_swarm@),
            harvests == count_true(contacts.asteroid_hit_by_swarm@),
            score.score + ALIEN_POINTS * kills + ASTEROID_POINTS * harvests <= u64::MAX,
            points == score.score + ALIEN_POINTS * count_true(contacts.alien_hit_by_swarm@.take(i as int)),
            despawn_aliens@ == contacts.alien_hit_by_swarm@.take(i as int),
        decreases n_aliens - i,
    {
        proof {
            lemma_count_true_prefix(contacts.alien_hit_by_swarm@, i as int + 1, i as int + 1);
            assert(contacts.alien_hit_by_swarm@.take(i as int + 1).drop_last()
                =~= contacts.alien_hit_by_swarm@.take(i as int));
        }
        let hit = contacts.alien_hit_by_swarm[i];
        if hit {
            points = points + ALIEN_POINTS;
        }
        despawn_aliens.push(hit);
        i = i + 1;
        assert(despawn_aliens@ =~= contacts.alien_hit_by_swarm@.take(i as int));
    }
    assert(contacts.alien_hit_by_swarm@.take(n_aliens as int) =~= contacts.alien_hit_by_swarm@);

    // Asteroids that the swarm reached are harvested.
    let n_asteroids = contacts.asteroid_hit_by_swarm.len();
    let mut harvested: u32 = 0;
    let mut j: usize = 0;
    while j < n_asteroids
        invariant
            n_asteroids == contacts.asteroid_hit_by_swarm@.len(),
            j <= n_asteroids,
            harvests == count_true(contacts.asteroid_hit_by_swarm@),
            score.score + ALIEN_POINTS * kills + ASTEROID_POINTS * harvests <= u64::MAX,
            BOIDS_PER_ASTEROID * harvests <= i32::MAX,
            harvested == count_true(contacts.asteroid_hit_by_swarm@.take(j as int)),
            points == score.score + ALIEN_POINTS * kills + ASTEROID_POINTS * harvested,
        decreases n_asteroids - j,
    {
        proof {
            lemma_count_true_prefix(contacts.asteroid_hit_by_swarm@, j as int + 1, j as int + 1);
            assert(contacts.asteroid_hit_by_swarm@.take(j as int + 1).drop_last()
                =~= contacts.asteroid_hit_by_swarm@.take(j as int));
        }
        if contacts.asteroid_hit_by_swarm[j] {
            points = points + ASTEROID_POINTS;
            harvested = harvested + 1;
        }
        j = j + 1;
    }
    assert(contacts.asteroid_hit_by_swarm@.take(n_asteroids as int) =~= contacts.asteroid_hit_by_swarm@);
    let despawn_asteroids = contacts.asteroid_hit_by_swarm.clone();

    let boids_to_spawn: u32 = if contacts.carrier_present {
        BOIDS_PER_ASTEROID * harvested
    } else {
        0
    };

    // An alien that reaches the carrier ends the game.
    let mut destroyed = false;
    if contacts.carrier_present {
        let mut k: usize = 0;
        while k < n_aliens && !destroyed
            invariant
                n_aliens == contacts.alien_touches_carrier@.len(),
                k <= n_aliens,
                !destroyed ==> count_true(contacts.alien_touches_carrier@.take(k as int)) == 0,
                destroyed ==> count_true(contacts.alien_touches_carrier@) > 0,
            decreases n_aliens - k,
        {
            assert(contacts.alien_touches_carrier@.take(k as int + 1).drop_last()
                =~= contacts.alien_touches_carrier@.take(k as int));
            proof {
                lemma_count_true_prefix(contacts.alien_touches_carrier@, k as int + 1, n_aliens as int);
            }
            if contacts.alien_touches_carrier[k] {
                destroyed = true;
            }
            k = k + 1;
        }
        if !destroyed {
            assert(contacts.alien_touches_carrier@.take(n_aliens as int) =~= contacts.alien_touches_carrier@);
        }
    }

    let mut final_score = Score { wave: score.wave, score: points };
    if destroyed {
        final_score = Score { wave: 1, score: 0 };
        let mut m: usize = 0;
        while m < n_aliens
            invariant
                n_aliens == despawn_aliens@.len(),
                m <= n_aliens,
                forall|t: int| 0 <= t < m ==> #[trigger] despawn_aliens@[t],
                forall|t: int| m <= t < n_aliens ==> #[trigger] despawn_aliens@[t]
                    == contacts.alien_hit_by_swarm@[t],
                n_aliens == contacts.alien_hit_by_swarm@.len(),
            decreases n_aliens - m,
        {
            despawn_aliens.set(m, true);
            m = m + 1;
        }
    }
    TickOutcome {
        score: final_score,
        despawn_aliens,
        despawn_asteroids,
        boids_to_spawn,
        carrier_destroyed: destroyed,
    }
}

} // verus!
