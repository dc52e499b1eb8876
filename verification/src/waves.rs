use vstd::prelude::*;
use crate::entities::Enemy;
use crate::rng::{SimpleRng, next_state};

verus! {

/// The two kinds of enemy wave: the classic formation that marches from side
/// to side, and the swooping flock.
#[derive(Clone, Copy, PartialEq, Eq, Structural, Debug)]
pub enum WaveType {
    Classic,
    Swoop,
}

/// Whether no enemy of the wave is left active.
pub open spec fn all_inactive(enemies: Seq<Enemy>) -> bool {
    forall|i: int| 0 <= i < enemies.len() ==> !(#[trigger] enemies[i]).active
}

/// The kind of wave number `wave_count`: every third wave swoops.
pub open spec fn kind_of_wave(wave_count: u32) -> WaveType {
    if wave_count % 3 == 0 {
        WaveType::Swoop
    } else {
        WaveType::Classic
    }
}

/// Every enemy counts: a list is wiped out exactly when both of its parts
/// are, wherever they stand.
pub proof fn lemma_all_inactive_parts(a: Seq<Enemy>, b: Seq<Enemy>)
    ensures
        all_inactive(a + b) == (all_inactive(a) && all_inactive(b)),
{
    let ab = a + b;
    if all_inactive(ab) {
        assert forall|i: int| 0 <= i < a.len() implies !(#[trigger] a[i]).active by {
            assert(ab[i] == a[i]);
        }
        assert forall|i: int| 0 <= i < b.len() implies !(#[trigger] b[i]).active by {
            assert(ab[a.len() + i] == b[i]);
        }
    }
    if all_inactive(a) && all_inactive(b) {
        assert forall|i: int| 0 <= i < ab.len() implies !(#[trigger] ab[i]).active by {
            if i < a.len() {
                assert(ab[i] == a[i]);
            } else {
                assert(ab[i] == b[i - a.len()]);
            }
        }
    }
}

/// No enemies are wiped out; a single enemy is wiped out exactly when it is
/// not active.
pub proof fn lemma_all_inactive_single(e: Enemy)
    ensures
        all_inactive(Seq::<Enemy>::empty()),
        all_inactive(seq![e]) == !e.active,
{
    assert(seq![e][0] == e);
}

impl WaveType {
    /// The kind of wave number `wave_count` (see `kind_of_wave`).
    pub fn for_wave(wave_count: u32) -> (r: WaveType)
        ensures
            r == kind_of_wave(wave_count),
    {
        if wave_count % 3 == 0 {
            WaveType::Swoop
        } else {
            WaveType::Classic
        }
    }

    /// Whether the wave is wiped out: none of its enemies is active.
    pub fn is_extinct(&self, enemies: &[Enemy]) -> (r: bool)
        ensures
            r == all_inactive(enemies@),
    {
        let mut i: usize = 0;
        while i < enemies.len()
            invariant
                i <= enemies@.len(),
                forall|j: int| 0 <= j < i ==> !(#[trigger] enemies@[j]).active,
            decreases enemies@.len() - i,
        {
            if enemies[i].active {
                return false;
            }
            i = i + 1;
        }
        true
    }
}

/// Picks which of the enemies able to dive goes next: the entry of
/// `eligible` (enemy indices) at the generator's next value modulo their
/// number. With no candidate nothing is picked and the generator is left
/// as it was.
pub fn pick_diver(eligible: &[usize], rng: &mut SimpleRng) -> (r: Option<usize>)
    ensures
        eligible@.len() == 0 ==> r is None && final(rng)@ == old(rng)@,
        eligible@.len() > 0 ==> {
            &&& final(rng)@ == next_state(old(rng)@)
            &&& r == Some(eligible@[next_state(old(rng)@) as int % eligible@.len() as int])
        },
{
    if eligible.len() == 0 {
        return None;
    }
    let k = rng.next_range(0, eligible.len());
    Some(eligible[k])
}

} // verus!
