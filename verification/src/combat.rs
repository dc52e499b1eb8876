use vstd::prelude::*;
use crate::entities::{Beam, Enemy, Ship, Sprite, Collidable, boxes_overlap, overlap_computable, collides_with};

verus! {

/// Whether beam `b` (of size `bw` by `bh`) strikes enemy `e` (of size `ew`
/// by `eh`): the enemy is active and their boxes overlap.
pub open spec fn strikes(b: Beam, e: Enemy, bw: u32, bh: u32, ew: u32, eh: u32) -> bool {
    e.active && boxes_overlap(b.position(), bw, bh, e.position(), ew, eh)
}

/// The first enemy, from index `j` on, that beam `b` strikes.
pub open spec fn first_struck(b: Beam, es: Seq<Enemy>, bw: u32, bh: u32, ew: u32, eh: u32, j: int) -> Option<int>
    decreases es.len() - j,
{
    if j < 0 || j >= es.len() {
        None
    } else if strikes(b, es[j], bw, bh, ew, eh) {
        Some(j)
    } else {
        first_struck(b, es, bw, bh, ew, eh, j + 1)
    }
}

/// Beam `b` after it struck an enemy: sent far above the screen.
pub open spec fn spent(b: Beam) -> Beam {
    Beam { x: b.x, y: -1000i32, sprite_idx: b.sprite_idx }
}

/// Enemy `e` after it was struck: no longer active.
pub open spec fn downed(e: Enemy) -> Enemy {
    Enemy { x: e.x, y: e.y, active: false, sprite_idx: e.sprite_idx }
}

/// The beams, the enemies and the indices of the enemies struck, in the
/// order they were struck, after the beams are tried one after another:
/// each beam strikes the first enemy still active that it overlaps, which
/// goes down, and the beam is spent.
pub open spec fn strike_all(beams: Seq<Beam>, es: Seq<Enemy>, bw: u32, bh: u32, ew: u32, eh: u32) -> (
    Seq<Beam>,
    Seq<Enemy>,
    Seq<usize>,
)
    decreases beams.len(),
{
    if beams.len() == 0 {
        (beams, es, Seq::empty())
    } else {
        let (bs, es1, hits) = strike_all(beams.drop_last(), es, bw, bh, ew, eh);
        let b = beams.last();
        match first_struck(b, es1, bw, bh, ew, eh, 0) {
            Some(j) => (bs.push(spent(b)), es1.update(j, downed(es1[j])), hits.push(j as usize)),
            None => (bs.push(b), es1, hits),
        }
    }
}

/// Whether every beam's box can be tested against every active enemy's
/// without overflow.
pub open spec fn strikes_computable(beams: Seq<Beam>, es: Seq<Enemy>, bw: u32, bh: u32, ew: u32, eh: u32) -> bool {
    forall|i: int, j: int|
        0 <= i < beams.len() && 0 <= j < es.len() && es[j].active ==> overlap_computable(
            #[trigger] beams[i].position(),
            bw,
            bh,
            #[trigger] es[j].position(),
            ew,
            eh,
        )
}

proof fn lemma_strike_all_shape(beams: Seq<Beam>, es: Seq<Enemy>, bw: u32, bh: u32, ew: u32, eh: u32)
    ensures
        ({
            let (bs, es1, hits) = strike_all(beams, es, bw, bh, ew, eh);
            &&& bs.len() == beams.len()
            &&& es1.len() == es.len()
            &&& forall|j: int| 0 <= j < es.len() ==> (#[trigger] es1[j]).x == es[j].x && es1[j].y == es[j].y
                && (es1[j].active ==> es[j].active)
        }),
    decreases beams.len(),
{
    if beams.len() > 0 {
        lemma_strike_all_shape(beams.drop_last(), es, bw, bh, ew, eh);
        let (bs, es1, hits) = strike_all(beams.drop_last(), es, bw, bh, ew, eh);
        let b = beams.last();
        match first_struck(b, es1, bw, bh, ew, eh, 0) {
            Some(j) => {
                lemma_first_struck_in(b, es1, bw, bh, ew, eh, 0);
            },
            None => {},
        }
    }
}

proof fn lemma_first_struck_in(b: Beam, es: Seq<Enemy>, bw: u32, bh: u32, ew: u32, eh: u32, j: int)
    ensures
        first_struck(b, es, bw, bh, ew, eh, j) matches Some(k) ==> j <= k < es.len() && strikes(
            b,
            es[k],
            bw,
            bh,
            ew,
            eh,
        ),
    decreases es.len() - j,
{
    if 0 <= j < es.len() && !strikes(b, es[j], bw, bh, ew, eh) {
        lemma_first_struck_in(b, es, bw, bh, ew, eh, j + 1);
    }
}

/// One volley downs each enemy at most once: the enemies struck are
/// distinct, each was active before and is down afterwards, and every enemy
/// not struck is left as it was.
pub proof fn lemma_each_enemy_struck_once(beams: Seq<Beam>, es: Seq<Enemy>, bw: u32, bh: u32, ew: u32, eh: u32)
    requires
        es.len() <= usize::MAX,
    ensures
        ({
            let (bs, es1, hits) = strike_all(beams, es, bw, bh, ew, eh);
            &&& hits.no_duplicates()
            &&& forall|k: int|
                0 <= k < hits.len() ==> 0 <= #[trigger] hits[k] < es.len() && es[hits[k] as int].active
                    && es1[hits[k] as int] == downed(es[hits[k] as int])
            &&& forall|j: int| 0 <= j < es.len() && !hits.contains(j as usize) ==> #[trigger] es1[j] == es[j]
        }),
    decreases beams.len(),
{
    if beams.len() > 0 {
        lemma_each_enemy_struck_once(beams.drop_last(), es, bw, bh, ew, eh);
        lemma_strike_all_shape(beams.drop_last(), es, bw, bh, ew, eh);
        let (bs, es1, hits) = strike_all(beams.drop_last(), es, bw, bh, ew, eh);
        let b = beams.last();
        match first_struck(b, es1, bw, bh, ew, eh, 0) {
            Some(j) => {
                lemma_first_struck_in(b, es1, bw, bh, ew, eh, 0);
                let h2 = hits.push(j as usize);
                assert(!hits.contains(j as usize)) by {
                    if hits.contains(j as usize) {
                        let k = choose|k: int| 0 <= k < hits.len() && hits[k] == j as usize;
                        assert(es1[hits[k] as int] == downed(es[hits[k] as int]));
                    }
                }
                assert forall|k: int| 0 <= k < h2.len() implies 0 <= #[trigger] h2[k] < es.len()
                    && es[h2[k] as int].active && es1.update(j, downed(es1[j]))[h2[k] as int] == downed(
                    es[h2[k] as int],
                ) by {
                    if k < hits.len() {
                        assert(h2[k] == hits[k]);
                    } else {
                        assert(h2[k] == j as usize);
                        assert(!hits.contains(j as usize));
                        assert(es1[j] == es[j]);
                    }
                }
                assert forall|i: int| 0 <= i < es.len() && !h2.contains(i as usize) implies #[trigger] es1.update(
                    j,
                    downed(es1[j]),
                )[i] == es[i] by {
                    if i == j {
                        assert(h2[hits.len() as int] == j as usize);
                    }
                    assert forall|k: int| 0 <= k < hits.len() implies hits[k] != i as usize by {
                        assert(h2[k] == hits[k]);
                    }
                }
            },
            None => {},
        }
    }
}

/// Tries each beam against the enemies (see `strike_all`): a beam strikes
/// the first active enemy it overlaps, which is deactivated, and the beam
/// is moved far above the screen. Returns the indices of the enemies
/// struck, in order.
pub fn strike_enemies(beams: &mut Vec<Beam>, enemies: &mut Vec<Enemy>, beam_s: &Sprite, enemy_s: &Sprite) -> (hits:
    Vec<usize>)
    requires
        strikes_computable(old(beams)@, old(enemies)@, beam_s.width, beam_s.height, enemy_s.width, enemy_s.height),
    ensures
        (final(beams)@, final(enemies)@, hits@) == strike_all(
            old(beams)@,
            old(enemies)@,
            beam_s.width,
            beam_s.height,
            enemy_s.width,
            enemy_s.height,
        ),
{
    let ghost bs0 = beams@;
    let ghost es0 = enemies@;
    let ghost bw = beam_s.width;
    let ghost bh = beam_s.height;
    let ghost ew = enemy_s.width;
    let ghost eh = enemy_s.height;
    let mut hits: Vec<usize> = Vec::new();
    let mut i: usize = 0;
    proof {
        assert(bs0.take(0) =~= Seq::<Beam>::empty());
    }
    while i < beams.len()
        invariant
            bs0 == old(beams)@,
            es0 == old(enemies)@,
            bw == beam_s.width,
            bh == beam_s.height,
            ew == enemy_s.width,
            eh == enemy_s.height,
            strikes_computable(bs0, es0, bw, bh, ew, eh),
            i <= beams@.len(),
            beams@.len() == bs0.len(),
            forall|k: int| i <= k < bs0.len() ==> #[trigger] beams@[k] == bs0[k],
            (beams@.take(i as int), enemies@, hits@) == strike_all(bs0.take(i as int), es0, bw, bh, ew, eh),
        decreases bs0.len() - i,
    {
        proof {
            lemma_strike_all_shape(bs0.take(i as int), es0, bw, bh, ew, eh);
            assert(bs0.take(i as int + 1).drop_last() =~= bs0.take(i as int));
            assert(bs0.take(i as int + 1).last() == bs0[i as int]);
        }
        let ghost es1 = enemies@;
        let ghost b = bs0[i as int];
        proof {
            assert forall|k: int| 0 <= k < es1.len() && es1[k].active implies overlap_computable(
                b.position(),
                bw,
                bh,
                #[trigger] es1[k].position(),
                ew,
                eh,
            ) by {
                assert(es1[k].position() == es0[k].position());
                assert(es0[k].active);
                assert(bs0[i as int].position() == b.position());
            }
        }
        let mut j: usize = 0;
        let mut struck: Option<usize> = None;
        while j < enemies.len() && struck.is_none()
            invariant
                enemies@ == es1,
                beams@[i as int] == b,
                i < beams@.len(),
                j <= es1.len(),
                bw == beam_s.width,
                bh == beam_s.height,
                ew == enemy_s.width,
                eh == enemy_s.height,
                forall|k: int|
                    0 <= k < es1.len() && es1[k].active ==> overlap_computable(
                        b.position(),
                        bw,
                        bh,
                        #[trigger] es1[k].position(),
                        ew,
                        eh,
                    ),
                struck is None ==> first_struck(b, es1, bw, bh, ew, eh, 0) == first_struck(
                    b,
                    es1,
                    bw,
                    bh,
                    ew,
                    eh,
                    j as int,
                ),
                struck matches Some(k) ==> first_struck(b, es1, bw, bh, ew, eh, 0) == Some(k as int),
            decreases es1.len() - j + if struck is None { 1int } else { 0int },
        {
            if enemies[j].active && collides_with(&beams[i], &enemies[j], beam_s, enemy_s) {
                struck = Some(j);
            } else {
                j = j + 1;
            }
        }
        proof {
            lemma_first_struck_in(b, es1, bw, bh, ew, eh, 0);
        }
        let ghost beams_before = beams@;
        let ghost hits_before = hits@;
        match struck {
            Some(k) => {
                let e = Enemy { x: enemies[k].x, y: enemies[k].y, active: false, sprite_idx: enemies[k].sprite_idx };
                enemies.set(k, e);
                let nb = Beam { x: beams[i].x, y: -1000, sprite_idx: beams[i].sprite_idx };
                beams.set(i, nb);
                hits.push(k);
                proof {
                    assert(beams@.take(i as int + 1) =~= beams_before.take(i as int).push(spent(b)));
                    assert(enemies@ =~= es1.update(k as int, downed(es1[k as int])));
                }
            },
            None => {
                proof {
                    assert(beams@.take(i as int + 1) =~= beams_before.take(i as int).push(b));
                }
            },
        }
        proof {
            let pre = bs0.take(i as int);
            let next = bs0.take(i as int + 1);
            assert(next.drop_last() =~= pre);
            assert(next.last() == b);
            let (obs, oes, ohits) = strike_all(pre, es0, bw, bh, ew, eh);
            assert(obs == beams_before.take(i as int));
            assert(oes == es1);
            assert(ohits == hits_before);
            if struck is None {
                assert(first_struck(b, es1, bw, bh, ew, eh, 0) is None);
            }
            assert(strike_all(next, es0, bw, bh, ew, eh) == (match first_struck(b, oes, bw, bh, ew, eh, 0) {
                Some(j) => (obs.push(spent(b)), oes.update(j, downed(oes[j])), ohits.push(j as usize)),
                None => (obs.push(b), oes, ohits),
            }));
        }
        i = i + 1;
    }
    proof {
        assert(beams@.take(i as int) =~= beams@);
        assert(bs0.take(i as int) =~= bs0);
    }
    hits
}

/// Whether some active enemy (of size `ew` by `eh`) overlaps the ship (of
/// size `sw` by `sh`).
pub open spec fn rammed(es: Seq<Enemy>, ship: Ship, ew: u32, eh: u32, sw: u32, sh: u32) -> bool {
    exists|j: int|
        0 <= j < es.len() && (#[trigger] es[j]).active && boxes_overlap(
            es[j].position(),
            ew,
            eh,
            ship.position(),
            sw,
            sh,
        )
}

/// Every enemy of the list is looked at: a list is rammed exactly when one
/// of its two parts is, wherever the part stands.
pub proof fn lemma_rammed_parts(a: Seq<Enemy>, b: Seq<Enemy>, ship: Ship, ew: u32, eh: u32, sw: u32, sh: u32)
    ensures
        rammed(a + b, ship, ew, eh, sw, sh) == (rammed(a, ship, ew, eh, sw, sh) || rammed(b, ship, ew, eh, sw, sh)),
{
    let ab = a + b;
    if rammed(ab, ship, ew, eh, sw, sh) {
        let j = choose|j: int|
            0 <= j < ab.len() && (#[trigger] ab[j]).active && boxes_overlap(ab[j].position(), ew, eh, ship.position(), sw, sh);
        if j < a.len() {
            assert(ab[j] == a[j]);
        } else {
            assert(ab[j] == b[j - a.len()]);
        }
    }
    if rammed(a, ship, ew, eh, sw, sh) {
        let j = choose|j: int|
            0 <= j < a.len() && (#[trigger] a[j]).active && boxes_overlap(a[j].position(), ew, eh, ship.position(), sw, sh);
        assert(ab[j] == a[j]);
    }
    if rammed(b, ship, ew, eh, sw, sh) {
        let j = choose|j: int|
            0 <= j < b.len() && (#[trigger] b[j]).active && boxes_overlap(b[j].position(), ew, eh, ship.position(), sw, sh);
        assert(ab[a.len() + j] == b[j]);
    }
}

/// No enemy, no ramming; a single enemy rams the ship exactly when it is
/// active and its box overlaps the ship's.
pub proof fn lemma_rammed_single(e: Enemy, ship: Ship, ew: u32, eh: u32, sw: u32, sh: u32)
    ensures
        !rammed(Seq::<Enemy>::empty(), ship, ew, eh, sw, sh),
        rammed(seq![e], ship, ew, eh, sw, sh) == (e.active && boxes_overlap(
            e.position(),
            ew,
            eh,
            ship.position(),
            sw,
            sh,
        )),
{
    if e.active && boxes_overlap(e.position(), ew, eh, ship.position(), sw, sh) {
        assert(seq![e][0] == e);
    }
}

/// Whether an active enemy has flown into the ship (see `rammed`).
pub fn enemy_rams_ship(enemies: &[Enemy], ship: &Ship, enemy_s: &Sprite, ship_s: &Sprite) -> (r: bool)
    requires
        forall|j: int|
            0 <= j < enemies@.len() && (#[trigger] enemies@[j]).active ==> overlap_computable(
                enemies@[j].position(),
                enemy_s.width,
                enemy_s.height,
                ship.position(),
                ship_s.width,
                ship_s.height,
            ),
    ensures
        r == rammed(enemies@, *ship, enemy_s.width, enemy_s.height, ship_s.width, ship_s.height),
{
    let mut j: usize = 0;
    while j < enemies.len()
        invariant
            j <= enemies@.len(),
            forall|k: int|
                0 <= k < enemies@.len() && (#[trigger] enemies@[k]).active ==> overlap_computable(
                    enemies@[k].position(),
                    enemy_s.width,
                    enemy_s.height,
                    ship.position(),
                    ship_s.width,
                    ship_s.height,
                ),
            forall|k: int|
                0 <= k < j ==> !((#[trigger] enemies@[k]).active && boxes_overlap(
                    enemies@[k].position(),
                    enemy_s.width,
                    enemy_s.height,
                    ship.position(),
                    ship_s.width,
                    ship_s.height,
                )),
        decreases enemies@.len() - j,
    {
        if enemies[j].active && collides_with(&enemies[j], ship, enemy_s, ship_s) {
            return true;
        }
        j = j + 1;
    }
    false
}

} // verus!
