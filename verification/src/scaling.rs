//! Enemy scaling: enemies' stats follow the level at which they are first
//! met, and the multipliers of their other encounters follow from it.

use crate::consts::{GALACTICMON_1ST_PHASE, MULTI_HIT};
use crate::encounters::{first_stats, has_stats};
use crate::json::Scaling;
use crate::rng::next_u64;
use crate::structs::{EncounterData, EnemyStats, MoveData};
use rand_xoshiro::Xoshiro256StarStar;
use vstd::prelude::*;

verus! {

/// Division rounding toward zero, as Rust divides signed integers.
pub open spec fn tdiv(x: int, d: int) -> int {
    if x == 0 {
        0
    } else if x > 0 && d > 0 {
        x / d
    } else if x < 0 && d < 0 {
        (x * -1) / (d * -1)
    } else if x < 0 {
        ((x * -1) / d) * -1
    } else {
        (x / (d * -1)) * -1
    }
}

/// A quotient of non-negative numbers is no larger than the dividend,
/// nor than half of it for a divisor of at least two.
proof fn lemma_div_le(a: int, b: int)
    requires
        a >= 0,
        b >= 1,
    ensures
        0 <= a / b <= a,
        b >= 2 ==> a / b <= a / 2,
{
    assert(0 <= a / b <= a) by (nonlinear_arith)
        requires
            a >= 0,
            b >= 1,
    ;
    if b >= 2 {
        assert(a / b <= a / 2) by (nonlinear_arith)
            requires
                a >= 0,
                b >= 2,
        ;
    }
}

/// Division rounding up, for a positive divisor.
pub open spec fn ceil_div(x: int, d: int) -> int {
    if x % d == 0 {
        x / d
    } else {
        x / d + 1
    }
}

/// The value fits in an `i32`.
pub open spec fn in_i32(x: int) -> bool {
    i32::MIN <= x <= i32::MAX
}

/// The value fits in an `i16`.
pub open spec fn in_i16(x: int) -> bool {
    i16::MIN <= x <= i16::MAX
}

/// `x / d` of `i32` values: a divisor other than zero, and no overflow.
pub open spec fn div_ok(x: int, d: int) -> bool {
    d != 0 && in_i32(x) && in_i32(d) && !(x == i32::MIN && d == -1)
}

/// Divides, rounding toward zero.
fn div_i32(x: i32, d: i32) -> (r: i32)
    requires
        div_ok(x as int, d as int),
    ensures
        r == tdiv(x as int, d as int),
{
    proof {
        let xi = x as int;
        let di = d as int;
        let ad = if di < 0 {
            -di
        } else {
            di
        };
        if xi < 0 {
            lemma_div_le(-xi, ad);
        }
        if xi > 0 {
            lemma_div_le(xi, ad);
        }
    }
    x.checked_div(d).unwrap()
}

/// A modifier the preset allows: none without an offset, else one from
/// minus the offset to the offset.
pub open spec fn modifier_ok(p: Scaling, m: int) -> bool {
    if p.scaling_offset == 0 {
        m == 0
    } else {
        -p.scaling_offset <= m <= p.scaling_offset
    }
}

/// The modifier a draw `d` gives with offset `offset`: minus the offset
/// plus the draw modulo `2 * offset + 1`.
pub open spec fn modifier_of_draw(offset: int, d: u64) -> int {
    -offset + (d as int) % (2 * offset + 1)
}

/// The modifier that draw `d` gives: none without an offset, else
/// `modifier_of_draw`.
pub open spec fn drawn_modifier(p: Scaling, d: u64) -> int {
    if p.scaling_offset == 0 {
        0
    } else {
        modifier_of_draw(p.scaling_offset as int, d)
    }
}

/// The modifier of an enemy's target stats that draw `d` gives.
fn modifier_from_draw(p: &Scaling, d: u64) -> (m: i32)
    requires
        0 <= p.scaling_offset <= 0x3fff_ffff,
    ensures
        m == drawn_modifier(*p, d),
        modifier_ok(*p, m as int),
{
    if p.scaling_offset == 0 {
        0
    } else {
        let modulo = (p.scaling_offset as u64) * 2 + 1;
        let r = d % modulo;
        assert(r < modulo);
        assert(r as i32 == r);
        let offset = p.scaling_offset as i32;
        assert(offset == p.scaling_offset);
        let low: i32 = -offset;
        assert(low + r as i32 == modifier_of_draw(p.scaling_offset as int, d));
        low + r as i32
    }
}

/// Target total of stats (or resistances) at level `lv`.
pub open spec fn target(base: i32, per_lv: i32, lv: u16, m: int) -> int {
    base + lv * per_lv + m
}

/// `target` can be computed in `i32` steps.
pub open spec fn target_fits(base: i32, per_lv: i32, lv: u16, m: int) -> bool {
    &&& in_i32(lv * per_lv)
    &&& in_i32(base + lv * per_lv)
    &&& in_i32(base + lv * per_lv + m)
}

/// Computes `target`.
fn target_exec(base: i32, per_lv: i32, lv: u16, m: i32) -> (t: i32)
    requires
        target_fits(base, per_lv, lv, m as int),
    ensures
        t == target(base, per_lv, lv, m as int),
{
    base + lv as i32 * per_lv + m
}

/// Sum of the enemy's five stats.
pub open spec fn stats_total(s: EnemyStats) -> int {
    s.str + s.def + s.wis + s.spt + s.spd
}

/// Sum of the enemy's seven resistances.
pub open spec fn res_total(s: EnemyStats) -> int {
    s.fir_res + s.wtr_res + s.ice_res + s.wnd_res + s.thd_res + s.mch_res + s.drk_res
}

/// Both sums can be computed in `i16` steps and are not zero.
pub open spec fn totals_fit(s: EnemyStats) -> bool {
    &&& in_i16(s.str + s.def)
    &&& in_i16(s.str + s.def + s.wis)
    &&& in_i16(s.str + s.def + s.wis + s.spt)
    &&& in_i16(stats_total(s))
    &&& stats_total(s) != 0
    &&& in_i16(s.fir_res + s.wtr_res)
    &&& in_i16(s.fir_res + s.wtr_res + s.ice_res)
    &&& in_i16(s.fir_res + s.wtr_res + s.ice_res + s.wnd_res)
    &&& in_i16(s.fir_res + s.wtr_res + s.ice_res + s.wnd_res + s.thd_res)
    &&& in_i16(s.fir_res + s.wtr_res + s.ice_res + s.wnd_res + s.thd_res + s.mch_res)
    &&& in_i16(res_total(s))
    &&& res_total(s) != 0
}

/// The power that the enemy's attack should have at level `lv`: 40 plus
/// ten per level, or, for a move that hits several times, its power
/// spread over the hits.
pub open spec fn attack_power(mv: MoveData, lv: u16) -> int {
    if mv.hit_effect == MULTI_HIT && mv.freq > 1 {
        (mv.power * 6) / (mv.freq * 5)
    } else {
        40 + lv * 10
    }
}

/// The enemy's attack, a move numbered from one.
pub open spec fn attack_of(s: EnemyStats, moves: Seq<MoveData>) -> MoveData {
    moves[s.attack - 1]
}

/// The attack can be looked up and its numbers computed in `u16`.
pub open spec fn attack_fits(s: EnemyStats, moves: Seq<MoveData>, lv: u16) -> bool {
    s.attack > 0 ==> {
        let mv = attack_of(s, moves);
        &&& s.attack - 1 < moves.len()
        &&& 40 + lv * 10 <= u16::MAX
        &&& (mv.hit_effect == MULTI_HIT && mv.freq > 1 ==> mv.power * 6 <= u16::MAX)
        &&& attack_power(mv, lv) != 0
        &&& 16 * attack_power(mv, lv) <= u16::MAX
        &&& mv.power != 0
    }
}

/// The multiplier of the enemy's first encounter: 16, or, with an
/// attack, 16 times the attack's target power over its power, rounded up.
pub open spec fn record_multiplier(s: EnemyStats, moves: Seq<MoveData>, lv: u16) -> int {
    if s.attack > 0 {
        ceil_div(16 * attack_power(attack_of(s, moves), lv), attack_of(s, moves).power as int)
    } else {
        16
    }
}

/// A target scaled to the attack: times its power over its target power.
pub open spec fn normalized(t: int, s: EnemyStats, moves: Seq<MoveData>, lv: u16) -> int {
    if s.attack > 0 {
        tdiv(t * attack_of(s, moves).power, attack_power(attack_of(s, moves), lv))
    } else {
        t
    }
}

/// `normalized` can be computed in `i32`.
pub open spec fn normalized_fits(t: int, s: EnemyStats, moves: Seq<MoveData>, lv: u16) -> bool {
    s.attack > 0 ==> in_i32(t * attack_of(s, moves).power)
}

/// The share of the new total that a stat of the old total takes.
pub open spec fn scaled(v: i16, t: int, total: int) -> i16 {
    tdiv(v * t, total) as i16
}

/// `scaled` can be computed in `i32`.
pub open spec fn scaled_fits(v: i16, t: int, total: int) -> bool {
    in_i32(t) && in_i32(v * t) && div_ok(v * t, total)
}

/// The enemy's stats and resistances scaled to the totals `tn` and `rn`:
/// each takes its share of the new total; nothing else changes.
pub open spec fn stats_scaled(old_s: EnemyStats, new_s: EnemyStats, tn: int, rn: int) -> bool {
    let ts = stats_total(old_s);
    let rs = res_total(old_s);
    new_s == (EnemyStats {
        str: scaled(old_s.str, tn, ts),
        def: scaled(old_s.def, tn, ts),
        wis: scaled(old_s.wis, tn, ts),
        spt: scaled(old_s.spt, tn, ts),
        spd: scaled(old_s.spd, tn, ts),
        fir_res: scaled(old_s.fir_res, rn, rs),
        wtr_res: scaled(old_s.wtr_res, rn, rs),
        ice_res: scaled(old_s.ice_res, rn, rs),
        wnd_res: scaled(old_s.wnd_res, rn, rs),
        thd_res: scaled(old_s.thd_res, rn, rs),
        mch_res: scaled(old_s.mch_res, rn, rs),
        drk_res: scaled(old_s.drk_res, rn, rs),
        ..old_s
    })
}

/// The stats target of an enemy first met at level `lv`, scaled to its
/// attack.
pub open spec fn stats_goal(p: Scaling, s: EnemyStats, moves: Seq<MoveData>, lv: u16, m: int) -> int {
    normalized(target(p.base_stats, p.stat_modifier, lv, m), s, moves, lv)
}

/// The resistances target of an enemy first met at level `lv`, scaled to
/// its attack.
pub open spec fn res_goal(p: Scaling, s: EnemyStats, moves: Seq<MoveData>, lv: u16, m: int) -> int {
    normalized(target(p.base_res, p.res_modifier, lv, m), s, moves, lv)
}

/// Scaling the enemy with modifier `m` can be computed without overflow or
/// division by zero.
pub open spec fn record_fits(p: Scaling, s: EnemyStats, moves: Seq<MoveData>, lv: u16, m: int) -> bool {
    let t = target(p.base_stats, p.stat_modifier, lv, m);
    let r = target(p.base_res, p.res_modifier, lv, m);
    let tn = stats_goal(p, s, moves, lv, m);
    let rn = res_goal(p, s, moves, lv, m);
    let ts = stats_total(s);
    let rs = res_total(s);
    &&& target_fits(p.base_stats, p.stat_modifier, lv, m)
    &&& target_fits(p.base_res, p.res_modifier, lv, m)
    &&& totals_fit(s)
    &&& attack_fits(s, moves, lv)
    &&& normalized_fits(t, s, moves, lv)
    &&& normalized_fits(r, s, moves, lv)
    &&& scaled_fits(s.str, tn, ts)
    &&& scaled_fits(s.def, tn, ts)
    &&& scaled_fits(s.wis, tn, ts)
    &&& scaled_fits(s.spt, tn, ts)
    &&& scaled_fits(s.spd, tn, ts)
    &&& scaled_fits(s.fir_res, rn, rs)
    &&& scaled_fits(s.wtr_res, rn, rs)
    &&& scaled_fits(s.ice_res, rn, rs)
    &&& scaled_fits(s.wnd_res, rn, rs)
    &&& scaled_fits(s.thd_res, rn, rs)
    &&& scaled_fits(s.mch_res, rn, rs)
    &&& scaled_fits(s.drk_res, rn, rs)
}

/// A stat's share of the new total.
fn scale_value(v: i16, t: i32, total: i32) -> (r: i16)
    requires
        scaled_fits(v, t as int, total as int),
    ensures
        r == scaled(v, t as int, total as int),
{
    let x = v as i32 * t;
    div_i32(x, total) as i16
}

/// Scales the enemy's stats and resistances to its targets at level `lv`,
/// and gives the multiplier of its first encounter.
fn scale_stats(p: &Scaling, s: &mut EnemyStats, moves: &Vec<MoveData>, lv: u16, m: i32) -> (bm: u16)
    requires
        record_fits(*p, *old(s), moves@, lv, m as int),
    ensures
        stats_scaled(
            *old(s),
            *final(s),
            stats_goal(*p, *old(s), moves@, lv, m as int),
            res_goal(*p, *old(s), moves@, lv, m as int),
        ),
        bm == record_multiplier(*old(s), moves@, lv),
{
    let target_stats = target_exec(p.base_stats, p.stat_modifier, lv, m);
    let target_res = target_exec(p.base_res, p.res_modifier, lv, m);
    let mut target_stats_normalized = target_stats;
    let mut target_res_normalized = target_res;
    let current_stats: i32 = (s.str + s.def + s.wis + s.spt + s.spd) as i32;
    let current_res: i32 = (s.fir_res + s.wtr_res + s.ice_res + s.wnd_res + s.thd_res + s.mch_res + s.drk_res) as i32;
    let mut base_multiplier: u16 = 16;
    if s.attack > 0 {
        let move_data = moves[(s.attack - 1) as usize];
        let mut power = 40 + lv * 10;
        if move_data.hit_effect == MULTI_HIT && move_data.freq > 1 {
            power = (move_data.power * 6) / (move_data.freq as u16 * 5);
        }
        let current_power = move_data.power;
        let target_power = power;
        let before_division = 16 * target_power;
        base_multiplier = if before_division % current_power == 0 {
            before_division / current_power
        } else {
            (before_division / current_power) + 1
        };
        target_stats_normalized = div_i32(target_stats_normalized * current_power as i32, target_power as i32);
        target_res_normalized = div_i32(target_res_normalized * current_power as i32, target_power as i32);
    }
    let ghost old_s = *s;
    s.str = scale_value(s.str, target_stats_normalized, current_stats);
    s.def = scale_value(s.def, target_stats_normalized, current_stats);
    s.wis = scale_value(s.wis, target_stats_normalized, current_stats);
    s.spt = scale_value(s.spt, target_stats_normalized, current_stats);
    s.spd = scale_value(s.spd, target_stats_normalized, current_stats);
    s.fir_res = scale_value(s.fir_res, target_res_normalized, current_res);
    s.wtr_res = scale_value(s.wtr_res, target_res_normalized, current_res);
    s.ice_res = scale_value(s.ice_res, target_res_normalized, current_res);
    s.wnd_res = scale_value(s.wnd_res, target_res_normalized, current_res);
    s.thd_res = scale_value(s.thd_res, target_res_normalized, current_res);
    s.mch_res = scale_value(s.mch_res, target_res_normalized, current_res);
    s.drk_res = scale_value(s.drk_res, target_res_normalized, current_res);
    base_multiplier
}

/// `k` is the first encounter of Digimon `id` at its lowest level.
pub open spec fn min_lv_first(encs: Seq<EncounterData>, id: u32, k: int) -> bool {
    &&& 0 <= k < encs.len()
    &&& encs[k].digimon_id == id
    &&& forall|j: int| 0 <= j < encs.len() && (#[trigger] encs[j]).digimon_id == id ==> encs[k].lv <= encs[j].lv
    &&& forall|j: int| 0 <= j < k && (#[trigger] encs[j]).digimon_id == id ==> encs[k].lv < encs[j].lv
}

/// Some encounter is one of Digimon `id`.
pub open spec fn has_encounter(encs: Seq<EncounterData>, id: u32) -> bool {
    exists|j: int| 0 <= j < encs.len() && (#[trigger] encs[j]).digimon_id == id
}

/// There is one first encounter at the lowest level.
proof fn lemma_min_lv_unique(encs: Seq<EncounterData>, id: u32, a: int, b: int)
    requires
        min_lv_first(encs, id, a),
        min_lv_first(encs, id, b),
    ensures
        a == b,
{
    if a < b {
        assert(encs[b].lv <= encs[a].lv);
        assert(encs[b].lv < encs[a].lv);
    } else if b < a {
        assert(encs[a].lv <= encs[b].lv);
        assert(encs[a].lv < encs[b].lv);
    }
}

/// The first encounter of Digimon `id` at its lowest level.
fn find_min_lv(encs: &Vec<EncounterData>, id: u32) -> (k: usize)
    requires
        has_encounter(encs@, id),
    ensures
        min_lv_first(encs@, id, k as int),
{
    let mut best: usize = encs.len();
    let mut i: usize = 0;
    while i < encs.len()
        invariant
            i <= encs.len(),
            best <= encs.len(),
            best == encs.len() <==> forall|j: int| 0 <= j < i ==> (#[trigger] encs@[j]).digimon_id != id,
            best < encs.len() ==> {
                &&& best < i
                &&& encs@[best as int].digimon_id == id
                &&& forall|j: int| 0 <= j < i && (#[trigger] encs@[j]).digimon_id == id ==> encs@[best as int].lv <= encs@[j].lv
                &&& forall|j: int| 0 <= j < best && (#[trigger] encs@[j]).digimon_id == id ==> encs@[best as int].lv < encs@[j].lv
            },
        decreases encs.len() - i,
    {
        if encs[i].digimon_id == id {
            if best == encs.len() || encs[i].lv < encs[best].lv {
                best = i;
            }
        }
        i += 1;
    }
    best
}

/// The multiplier of another encounter of the enemy: its target at the
/// encounter's level over the target at the first level, times the first
/// encounter's multiplier.
pub open spec fn other_multiplier(p: Scaling, lv: u16, bm: int, min_lv: u16) -> int {
    tdiv((p.base_stats + p.stat_modifier * lv) * bm, p.base_stats + p.stat_modifier * min_lv)
}

/// `other_multiplier` can be computed in `i32`.
pub open spec fn other_fits(p: Scaling, lv: u16, bm: int, min_lv: u16) -> bool {
    &&& in_i32(p.stat_modifier * lv)
    &&& in_i32(p.base_stats + p.stat_modifier * lv)
    &&& in_i32((p.base_stats + p.stat_modifier * lv) * bm)
    &&& in_i32(p.stat_modifier * min_lv)
    &&& in_i32(p.base_stats + p.stat_modifier * min_lv)
    &&& div_ok((p.base_stats + p.stat_modifier * lv) * bm, p.base_stats + p.stat_modifier * min_lv)
}

/// The encounters agree in everything but their multipliers.
pub open spec fn same_but_multiplier(a: EncounterData, b: EncounterData) -> bool {
    a.digimon_id == b.digimon_id && a.lv == b.lv && a.max_hp == b.max_hp && a.max_mp == b.max_mp
}

/// The encounters of Digimon `id` have the multipliers that follow from
/// `bm` at encounter `k`; the others are unchanged.
pub open spec fn multipliers_set(
    p: Scaling,
    old_e: Seq<EncounterData>,
    new_e: Seq<EncounterData>,
    id: u32,
    k: int,
    bm: int,
) -> bool {
    &&& new_e.len() == old_e.len()
    &&& forall|i: int|
        0 <= i < old_e.len() ==> {
            &&& same_but_multiplier(#[trigger] old_e[i], new_e[i])
            &&& new_e[i].multiplier == if old_e[i].digimon_id != id {
                old_e[i].multiplier as int
            } else if i == k {
                bm
            } else {
                other_multiplier(p, old_e[i].lv, bm, old_e[k].lv) as u16 as int
            }
        }
}

/// Sets the multipliers of the encounters of Digimon `id`: `bm` for
/// encounter `k`, and what follows from it for the others.
fn set_multipliers(p: &Scaling, encs: &mut Vec<EncounterData>, id: u32, k: usize, bm: u16)
    requires
        k < old(encs).len(),
        old(encs)@[k as int].digimon_id == id,
        forall|i: int|
            0 <= i < old(encs).len() && i != k && (#[trigger] old(encs)@[i]).digimon_id == id ==> other_fits(
                *p,
                old(encs)@[i].lv,
                bm as int,
                old(encs)@[k as int].lv,
            ),
    ensures
        multipliers_set(*p, old(encs)@, final(encs)@, id, k as int, bm as int),
{
    let min_lv = encs[k].lv;
    encs[k].multiplier = bm;
    let mut i: usize = 0;
    while i < encs.len()
        invariant
            i <= encs.len() == old(encs).len(),
            k < old(encs).len(),
            min_lv == old(encs)@[k as int].lv,
            encs@[k as int] == (EncounterData { multiplier: bm, ..old(encs)@[k as int] }),
            forall|q: int|
                0 <= q < old(encs).len() && q != k && (#[trigger] old(encs)@[q]).digimon_id == id ==> other_fits(
                    *p,
                    old(encs)@[q].lv,
                    bm as int,
                    min_lv,
                ),
            forall|q: int| i <= q < encs.len() && q != k ==> #[trigger] encs@[q] == old(encs)@[q],
            forall|q: int|
                0 <= q < i && q != k ==> {
                    &&& same_but_multiplier(#[trigger] old(encs)@[q], encs@[q])
                    &&& encs@[q].multiplier == if old(encs)@[q].digimon_id != id {
                        old(encs)@[q].multiplier as int
                    } else {
                        other_multiplier(*p, old(encs)@[q].lv, bm as int, min_lv) as u16 as int
                    }
                },
        decreases encs.len() - i,
    {
        if i != k && encs[i].digimon_id == id {
            let lv = encs[i].lv;
            let num = (p.base_stats + p.stat_modifier * lv as i32) * bm as i32;
            let den = p.base_stats + p.stat_modifier * min_lv as i32;
            encs[i].multiplier = div_i32(num, den) as u16;
        }
        i += 1;
    }
    assert forall|q: int| 0 <= q < old(encs).len() implies {
        &&& same_but_multiplier(#[trigger] old(encs)@[q], encs@[q])
        &&& encs@[q].multiplier == if old(encs)@[q].digimon_id != id {
            old(encs)@[q].multiplier as int
        } else if q == k {
            bm as int
        } else {
            other_multiplier(*p, old(encs)@[q].lv, bm as int, old(encs)@[k as int].lv) as u16 as int
        }
    } by {
        if q != k {
            assert(same_but_multiplier(old(encs)@[q], encs@[q]));
        }
    }
}

/// The last record of Digimon `id`, or -1 if there is none.
pub open spec fn last_record(stats: Seq<EnemyStats>, id: u32) -> int
    decreases stats.len(),
{
    if stats.len() == 0 {
        -1
    } else if stats.last().digimon_id as u32 == id {
        stats.len() - 1
    } else {
        last_record(stats.drop_last(), id)
    }
}

/// The last record lies within the records.
proof fn lemma_last_record_bound(stats: Seq<EnemyStats>, id: u32)
    ensures
        -1 <= last_record(stats, id) < stats.len(),
        last_record(stats, id) >= 0 ==> stats[last_record(stats, id)].digimon_id as u32 == id,
    decreases stats.len(),
{
    if stats.len() > 0 && stats.last().digimon_id as u32 != id {
        lemma_last_record_bound(stats.drop_last(), id);
    }
}

/// The first encounter of Digimon `id` at its lowest level.
pub open spec fn first_index(encs: Seq<EncounterData>, id: u32) -> int {
    choose|k: int| min_lv_first(encs, id, k)
}

/// The lowest level at which Digimon `id` is met.
pub open spec fn first_level(encs: Seq<EncounterData>, id: u32) -> u16 {
    encs[first_index(encs, id)].lv
}

/// The multiplier encounter `i` ends up with: the last record of its
/// Digimon decides it, and without one it is unchanged.
pub open spec fn final_multiplier(
    p: Scaling,
    encs: Seq<EncounterData>,
    stats: Seq<EnemyStats>,
    moves: Seq<MoveData>,
    i: int,
) -> int {
    let id = encs[i].digimon_id;
    let j = last_record(stats, id);
    if j < 0 {
        encs[i].multiplier as int
    } else {
        let bm = record_multiplier(stats[j], moves, first_level(encs, id));
        if i == first_index(encs, id) {
            bm
        } else {
            other_multiplier(p, encs[i].lv, bm, first_level(encs, id)) as u16 as int
        }
    }
}

/// Record `j` was scaled with some modifier the preset allows.
pub open spec fn record_scaled(
    p: Scaling,
    encs: Seq<EncounterData>,
    old_s: EnemyStats,
    new_s: EnemyStats,
    moves: Seq<MoveData>,
) -> bool {
    let lv = first_level(encs, old_s.digimon_id as u32);
    exists|m: int|
        modifier_ok(p, m) && #[trigger] stats_scaled(
            old_s,
            new_s,
            stats_goal(p, old_s, moves, lv, m),
            res_goal(p, old_s, moves, lv, m),
        )
}

/// What scaling does to the enemies' stats and the encounters'
/// multipliers.
pub open spec fn enemies_scaled(
    p: Scaling,
    old_e: Seq<EncounterData>,
    new_e: Seq<EncounterData>,
    old_s: Seq<EnemyStats>,
    new_s: Seq<EnemyStats>,
    moves: Seq<MoveData>,
) -> bool {
    &&& new_s.len() == old_s.len()
    &&& forall|j: int| 0 <= j < old_s.len() ==> record_scaled(p, old_e, #[trigger] old_s[j], new_s[j], moves)
    &&& new_e.len() == old_e.len()
    &&& forall|i: int|
        0 <= i < old_e.len() ==> same_but_multiplier(#[trigger] old_e[i], new_e[i]) && new_e[i].multiplier
            == final_multiplier(p, old_e, old_s, moves, i)
}

/// A record was scaled with the modifier of draw `d`.
pub open spec fn record_scaled_by(
    p: Scaling,
    encs: Seq<EncounterData>,
    old_s: EnemyStats,
    new_s: EnemyStats,
    moves: Seq<MoveData>,
    d: u64,
) -> bool {
    let lv = first_level(encs, old_s.digimon_id as u32);
    let m = drawn_modifier(p, d);
    stats_scaled(old_s, new_s, stats_goal(p, old_s, moves, lv, m), res_goal(p, old_s, moves, lv, m))
}

/// What scaling with the given draws, one for each enemy, does to the
/// enemies' stats and the encounters' multipliers: enemy `j` is scaled
/// with the modifier of draw `j`.
pub open spec fn enemies_scaled_by(
    p: Scaling,
    old_e: Seq<EncounterData>,
    new_e: Seq<EncounterData>,
    old_s: Seq<EnemyStats>,
    new_s: Seq<EnemyStats>,
    moves: Seq<MoveData>,
    draws: Seq<u64>,
) -> bool {
    &&& new_s.len() == old_s.len()
    &&& draws.len() == old_s.len()
    &&& forall|j: int| 0 <= j < old_s.len() ==> record_scaled_by(p, old_e, #[trigger] old_s[j], new_s[j], moves, draws[j])
    &&& new_e.len() == old_e.len()
    &&& forall|i: int|
        0 <= i < old_e.len() ==> same_but_multiplier(#[trigger] old_e[i], new_e[i]) && new_e[i].multiplier
            == final_multiplier(p, old_e, old_s, moves, i)
}

/// Scaling with draws is scaling with modifiers the preset allows.
pub proof fn lemma_scaled_by_draws(
    p: Scaling,
    old_e: Seq<EncounterData>,
    new_e: Seq<EncounterData>,
    old_s: Seq<EnemyStats>,
    new_s: Seq<EnemyStats>,
    moves: Seq<MoveData>,
    draws: Seq<u64>,
)
    requires
        0 <= p.scaling_offset <= 0x3fff_ffff,
        enemies_scaled_by(p, old_e, new_e, old_s, new_s, moves, draws),
    ensures
        enemies_scaled(p, old_e, new_e, old_s, new_s, moves),
{
    assert forall|j: int| 0 <= j < old_s.len() implies record_scaled(p, old_e, #[trigger] old_s[j], new_s[j], moves) by {
        let lv = first_level(old_e, old_s[j].digimon_id as u32);
        let m = drawn_modifier(p, draws[j]);
        if p.scaling_offset != 0 {
            let md = (2 * p.scaling_offset + 1) as int;
            vstd::arithmetic::div_mod::lemma_mod_bound(draws[j] as int, md);
        }
        assert(modifier_ok(p, m));
        assert(record_scaled_by(p, old_e, old_s[j], new_s[j], moves, draws[j]));
        assert(stats_scaled(old_s[j], new_s[j], stats_goal(p, old_s[j], moves, lv, m), res_goal(p, old_s[j], moves, lv, m)));
    }
}

/// Scaling the enemies cannot overflow or divide by zero, whatever
/// modifiers are drawn: every enemy has an encounter, and every step of
/// its computation fits.
pub open spec fn enemies_fit(p: Scaling, encs: Seq<EncounterData>, stats: Seq<EnemyStats>, moves: Seq<MoveData>) -> bool {
    &&& 0 <= p.scaling_offset <= 0x3fff_ffff
    &&& forall|j: int| 0 <= j < stats.len() ==> has_encounter(encs, (#[trigger] stats[j]).digimon_id as u32)
    &&& forall|j: int, m: int|
        0 <= j < stats.len() && modifier_ok(p, m) ==> #[trigger] record_fits(
            p,
            stats[j],
            moves,
            first_level(encs, stats[j].digimon_id as u32),
            m,
        )
    &&& forall|j: int, i: int|
        0 <= j < stats.len() && 0 <= i < encs.len() && i != first_index(encs, stats[j].digimon_id as u32)
            && (#[trigger] encs[i]).digimon_id == (#[trigger] stats[j]).digimon_id as u32 ==> other_fits(
            p,
            encs[i].lv,
            record_multiplier(stats[j], moves, first_level(encs, stats[j].digimon_id as u32)),
            first_level(encs, stats[j].digimon_id as u32),
        )
}

/// Encounters with the same Digimon and levels have the same first
/// encounter at the lowest level.
proof fn lemma_min_lv_same(a: Seq<EncounterData>, b: Seq<EncounterData>, id: u32, k: int)
    requires
        a.len() == b.len(),
        forall|i: int| 0 <= i < a.len() ==> same_but_multiplier(#[trigger] a[i], b[i]),
        min_lv_first(a, id, k),
    ensures
        min_lv_first(b, id, k),
{
    assert forall|j: int| 0 <= j < b.len() && (#[trigger] b[j]).digimon_id == id implies b[k].lv <= b[j].lv by {
        assert(same_but_multiplier(a[j], b[j]));
        assert(same_but_multiplier(a[k], b[k]));
    }
    assert forall|j: int| 0 <= j < k && (#[trigger] b[j]).digimon_id == id implies b[k].lv < b[j].lv by {
        assert(same_but_multiplier(a[j], b[j]));
        assert(same_but_multiplier(a[k], b[k]));
    }
}

/// Scales every enemy to the level at which it is first met, and sets
/// the multipliers of its encounters.
fn scale_enemies(
    p: &Scaling,
    encs: &mut Vec<EncounterData>,
    stats: &mut Vec<EnemyStats>,
    moves: &Vec<MoveData>,
    draws: &Vec<u64>,
)
    requires
        enemies_fit(*p, old(encs)@, old(stats)@, moves@),
        draws.len() == old(stats).len(),
    ensures
        enemies_scaled_by(*p, old(encs)@, final(encs)@, old(stats)@, final(stats)@, moves@, draws@),
{
    let ghost old_e = encs@;
    let mut j: usize = 0;
    while j < stats.len()
        invariant
            j <= stats.len() == old(stats).len(),
            old_e == old(encs)@,
            enemies_fit(*p, old_e, old(stats)@, moves@),
            encs.len() == old_e.len(),
            draws.len() == old(stats).len(),
            forall|q: int| 0 <= q < j ==> record_scaled_by(*p, old_e, #[trigger] old(stats)@[q], stats@[q], moves@, draws@[q]),
            forall|q: int| j <= q < stats.len() ==> #[trigger] stats@[q] == old(stats)@[q],
            forall|i: int|
                0 <= i < old_e.len() ==> same_but_multiplier(#[trigger] old_e[i], encs@[i]) && encs@[i].multiplier
                    == final_multiplier(*p, old_e, old(stats)@.take(j as int), moves@, i),
        decreases stats.len() - j,
    {
        let ghost s_before = stats@;
        let ghost e_before = encs@;
        let id = stats[j].digimon_id as u32;
        proof {
            assert(has_encounter(old_e, old(stats)@[j as int].digimon_id as u32));
            let w = choose|w: int| 0 <= w < old_e.len() && (#[trigger] old_e[w]).digimon_id == id;
            assert(same_but_multiplier(old_e[w], encs@[w]));
            assert(has_encounter(encs@, id));
        }
        let k = find_min_lv(encs, id);
        proof {
            assert forall|i: int| 0 <= i < encs.len() implies same_but_multiplier(#[trigger] encs@[i], old_e[i]) by {
                assert(same_but_multiplier(old_e[i], encs@[i]));
            }
            lemma_min_lv_same(encs@, old_e, id, k as int);
            lemma_min_lv_unique(old_e, id, k as int, first_index(old_e, id));
            assert(same_but_multiplier(old_e[k as int], encs@[k as int]));
        }
        let lv = encs[k].lv;
        let m = modifier_from_draw(p, draws[j]);
        proof {
            assert(record_fits(*p, old(stats)@[j as int], moves@, first_level(old_e, id), m as int));
        }
        let bm = scale_stats(p, &mut stats[j], moves, lv, m);
        proof {
            assert forall|i: int|
                0 <= i < e_before.len() && i != k && (#[trigger] e_before[i]).digimon_id == id implies other_fits(
                    *p,
                    e_before[i].lv,
                    bm as int,
                    e_before[k as int].lv,
                ) by {
                assert(same_but_multiplier(old_e[i], e_before[i]));
                assert(old_e[i].digimon_id == old(stats)@[j as int].digimon_id as u32);
            }
        }
        set_multipliers(p, encs, id, k, bm);
        proof {
            let t1 = old(stats)@.take(j + 1);
            let t0 = old(stats)@.take(j as int);
            assert(t1.drop_last() =~= t0);
            assert(t1.last() == old(stats)@[j as int]);
            assert forall|q: int| 0 <= q < j + 1 implies record_scaled_by(*p, old_e, #[trigger] old(stats)@[q], stats@[q], moves@, draws@[q]) by {
                if q < j {
                    assert(stats@[q] == s_before[q]);
                } else {
                    let g = first_level(old_e, old(stats)@[q].digimon_id as u32);
                    assert(stats_scaled(
                        old(stats)@[q],
                        stats@[q],
                        stats_goal(*p, old(stats)@[q], moves@, g, m as int),
                        res_goal(*p, old(stats)@[q], moves@, g, m as int),
                    ));
                }
            }
            assert forall|i: int|
                0 <= i < old_e.len() implies same_but_multiplier(#[trigger] old_e[i], encs@[i]) && encs@[i].multiplier
                    == final_multiplier(*p, old_e, t1, moves@, i) by {
                assert(same_but_multiplier(old_e[i], e_before[i]));
                assert(same_but_multiplier(e_before[i], encs@[i]));
                assert(first_index(old_e, id) == k);
                assert(same_but_multiplier(old_e[k as int], e_before[k as int]));
                assert(first_level(old_e, id) == e_before[k as int].lv);
                if old_e[i].digimon_id == id {
                    assert(last_record(t1, id) == j);
                    assert(t1[j as int] == old(stats)@[j as int]);
                    assert(bm == record_multiplier(old(stats)@[j as int], moves@, first_level(old_e, id)));
                } else {
                    let id2 = old_e[i].digimon_id;
                    assert(last_record(t1, id2) == last_record(t0, id2));
                    let j2 = last_record(t0, id2);
                    if j2 >= 0 {
                        lemma_last_record_bound(t0, id2);
                        assert(t1[j2] == t0[j2]);
                    }
                    assert(encs@[i].multiplier == e_before[i].multiplier);
                    assert(e_before[i].multiplier == final_multiplier(*p, old_e, t0, moves@, i));
                }
            }
        }
        j += 1;
    }
    proof {
        assert(old(stats)@.take(j as int) =~= old(stats)@);
    }
}

/// `k` is the first encounter of Galacticmon's first phase.
pub open spec fn first_galacticmon(original: Seq<EncounterData>, k: int) -> bool {
    &&& 0 <= k < original.len()
    &&& original[k].digimon_id as u16 == GALACTICMON_1ST_PHASE
    &&& forall|j: int| 0 <= j < k ==> (#[trigger] original[j]).digimon_id as u16 != GALACTICMON_1ST_PHASE
}

/// The fix applies: the encounters of the first and third phases have
/// different multipliers and different Digimon.
pub open spec fn galacticmon_applies(encs: Seq<EncounterData>, k: int) -> bool {
    encs[k + 2].multiplier != encs[k].multiplier && encs[k].digimon_id != encs[k + 2].digimon_id
}

/// A stat reweighted from multiplier `current` to `target`.
pub open spec fn reweighted(v: i16, current: u16, target: u16) -> i16 {
    (((v as u16) * current) / (target as int)) as i16
}

/// The stat can be reweighted in `u16`.
pub open spec fn reweight_fits(v: i16, current: u16, target: u16) -> bool {
    (v as u16) * current <= u16::MAX
}

/// Galacticmon's fix can be computed: its encounter is found, and, where
/// the fix applies, its record and attack are found and no step
/// overflows or divides by zero.
pub open spec fn galacticmon_fits(
    original: Seq<EncounterData>,
    encs: Seq<EncounterData>,
    stats: Seq<EnemyStats>,
    moves: Seq<MoveData>,
) -> bool {
    &&& exists|k: int| first_galacticmon(original, k)
    &&& forall|k: int|
        #[trigger] first_galacticmon(original, k) ==> {
            &&& k + 2 < encs.len()
            &&& galacticmon_applies(encs, k) ==> {
                let id = encs[k].digimon_id;
                let current = encs[k].multiplier;
                let target = encs[k + 2].multiplier;
                &&& has_stats(stats, id as u16)
                &&& target != 0
                &&& current != 0
                &&& forall|t: int|
                    #[trigger] first_stats(stats, id as u16, t) ==> {
                        let s = stats[t];
                        &&& reweight_fits(s.str, current, target)
                        &&& reweight_fits(s.def, current, target)
                        &&& reweight_fits(s.spt, current, target)
                        &&& reweight_fits(s.wis, current, target)
                        &&& reweight_fits(s.spd, current, target)
                        &&& s.attack < moves.len()
                        &&& moves[s.attack as int].power * current <= u16::MAX
                    }
                &&& forall|i: int|
                    0 <= i < encs.len() && (#[trigger] encs[i]).digimon_id == id ==> encs[i].multiplier * target
                        <= u16::MAX
            }
        }
}

/// What Galacticmon's fix does: where it applies, the first record of the
/// first phase's Digimon and its attack are reweighted from the first
/// phase's multiplier to the third's, and that Digimon's encounters get
/// multipliers reweighted the other way; nothing else changes.
pub open spec fn galacticmon_fixed(
    original: Seq<EncounterData>,
    old_e: Seq<EncounterData>,
    new_e: Seq<EncounterData>,
    old_s: Seq<EnemyStats>,
    new_s: Seq<EnemyStats>,
    old_m: Seq<MoveData>,
    new_m: Seq<MoveData>,
) -> bool {
    forall|k: int|
        #[trigger] first_galacticmon(original, k) ==> if galacticmon_applies(old_e, k) {
            let id = old_e[k].digimon_id;
            let current = old_e[k].multiplier;
            let target = old_e[k + 2].multiplier;
            &&& new_e.len() == old_e.len()
            &&& forall|i: int|
                0 <= i < old_e.len() ==> same_but_multiplier(#[trigger] old_e[i], new_e[i]) && new_e[i].multiplier == if old_e[i].digimon_id
                    == id {
                    (old_e[i].multiplier * target) / (current as int)
                } else {
                    old_e[i].multiplier as int
                }
            &&& forall|t: int|
                #[trigger] first_stats(old_s, id as u16, t) ==> {
                    let s = old_s[t];
                    &&& new_s == old_s.update(
                        t,
                        EnemyStats {
                            str: reweighted(s.str, current, target),
                            def: reweighted(s.def, current, target),
                            spt: reweighted(s.spt, current, target),
                            wis: reweighted(s.wis, current, target),
                            spd: reweighted(s.spd, current, target),
                            ..s
                        },
                    )
                    &&& new_m == old_m.update(
                        s.attack as int,
                        MoveData { power: ((old_m[s.attack as int].power * current) / (target as int)) as u16, ..old_m[s.attack as int] },
                    )
                }
        } else {
            new_e == old_e && new_s == old_s && new_m == old_m
        }
}

/// The first encounter of Galacticmon's first phase.
fn find_galacticmon(original: &Vec<EncounterData>) -> (k: usize)
    requires
        exists|k: int| first_galacticmon(original@, k),
    ensures
        first_galacticmon(original@, k as int),
{
    let mut k: usize = 0;
    while k < original.len()
        invariant
            k <= original.len(),
            exists|k: int| first_galacticmon(original@, k),
            forall|j: int| 0 <= j < k ==> (#[trigger] original@[j]).digimon_id as u16 != GALACTICMON_1ST_PHASE,
        decreases original.len() - k,
    {
        if original[k].digimon_id as u16 == GALACTICMON_1ST_PHASE {
            return k;
        }
        k += 1;
    }
    proof {
        let w = choose|w: int| first_galacticmon(original@, w);
        assert(original@[w].digimon_id as u16 == GALACTICMON_1ST_PHASE);
    }
    k
}

/// The first record of Digimon `id`.
fn find_record(stats: &Vec<EnemyStats>, id: u16) -> (t: usize)
    requires
        has_stats(stats@, id),
    ensures
        first_stats(stats@, id, t as int),
{
    let mut t: usize = 0;
    while t < stats.len()
        invariant
            t <= stats.len(),
            has_stats(stats@, id),
            forall|j: int| 0 <= j < t ==> (#[trigger] stats@[j]).digimon_id != id,
        decreases stats.len() - t,
    {
        if stats[t].digimon_id == id {
            return t;
        }
        t += 1;
    }
    t
}

/// There is only one first record.
proof fn lemma_first_stats_unique(stats: Seq<EnemyStats>, id: u16, a: int, b: int)
    requires
        first_stats(stats, id, a),
        first_stats(stats, id, b),
    ensures
        a == b,
{
    if a < b {
        assert(stats[a].digimon_id != id);
    } else if b < a {
        assert(stats[b].digimon_id != id);
    }
}

/// There is only one first encounter of Galacticmon.
proof fn lemma_first_galacticmon_unique(original: Seq<EncounterData>, a: int, b: int)
    requires
        first_galacticmon(original, a),
        first_galacticmon(original, b),
    ensures
        a == b,
{
    if a < b {
        assert(original[a].digimon_id as u16 != GALACTICMON_1ST_PHASE);
    } else if b < a {
        assert(original[b].digimon_id as u16 != GALACTICMON_1ST_PHASE);
    }
}

/// Reweights a stat from multiplier `current` to `target`.
fn reweight(v: i16, current: u16, target: u16) -> (r: i16)
    requires
        reweight_fits(v, current, target),
        target != 0,
    ensures
        r == reweighted(v, current, target),
{
    ((v as u16 * current) / target) as i16
}

/// Evens out the multipliers of Galacticmon's first and third phases
/// without changing how strong the first phase is: where their encounters
/// differ in multiplier and Digimon, the first phase's Digimon and its
/// attack are reweighted to the third phase's multiplier, and its
/// encounters' multipliers the other way.
fn galacticmon_fix(
    original: &Vec<EncounterData>,
    encs: &mut Vec<EncounterData>,
    stats: &mut Vec<EnemyStats>,
    moves: &mut Vec<MoveData>,
)
    requires
        galacticmon_fits(original@, old(encs)@, old(stats)@, old(moves)@),
    ensures
        galacticmon_fixed(original@, old(encs)@, final(encs)@, old(stats)@, final(stats)@, old(moves)@, final(moves)@),
{
    let phase_1 = find_galacticmon(original);
    proof {
        assert(first_galacticmon(original@, phase_1 as int));
        assert(phase_1 + 2 < old(encs).len());
    }
    let phase_3 = phase_1 + 2;
    let target_multiplier = encs[phase_3].multiplier;
    let current_multiplier = encs[phase_1].multiplier;
    let phase_1_digimon_id = encs[phase_1].digimon_id;
    let phase_3_digimon_id = encs[phase_3].digimon_id;
    if target_multiplier != current_multiplier && phase_1_digimon_id != phase_3_digimon_id {
        let t = find_record(stats, phase_1_digimon_id as u16);
        let ghost s0 = stats@[t as int];
        proof {
            assert(first_stats(old(stats)@, phase_1_digimon_id as u16, t as int));
        }
        let str = reweight(stats[t].str, current_multiplier, target_multiplier);
        let def = reweight(stats[t].def, current_multiplier, target_multiplier);
        let spt = reweight(stats[t].spt, current_multiplier, target_multiplier);
        let wis = reweight(stats[t].wis, current_multiplier, target_multiplier);
        let spd = reweight(stats[t].spd, current_multiplier, target_multiplier);
        stats[t].str = str;
        stats[t].def = def;
        stats[t].spt = spt;
        stats[t].wis = wis;
        stats[t].spd = spd;
        let mut i: usize = 0;
        while i < encs.len()
            invariant
                i <= encs.len() == old(encs).len(),
                0 < current_multiplier,
                forall|q: int|
                    0 <= q < old(encs).len() && (#[trigger] old(encs)@[q]).digimon_id == phase_1_digimon_id ==> old(encs)@[q].multiplier
                        * target_multiplier <= u16::MAX,
                forall|q: int| i <= q < encs.len() ==> #[trigger] encs@[q] == old(encs)@[q],
                forall|q: int|
                    0 <= q < i ==> same_but_multiplier(#[trigger] old(encs)@[q], encs@[q]) && encs@[q].multiplier == if old(encs)@[q].digimon_id
                        == phase_1_digimon_id {
                        (old(encs)@[q].multiplier * target_multiplier) / (current_multiplier as int)
                    } else {
                        old(encs)@[q].multiplier as int
                    },
            decreases encs.len() - i,
        {
            if encs[i].digimon_id == phase_1_digimon_id {
                let m = encs[i].multiplier;
                encs[i].multiplier = (m * target_multiplier) / current_multiplier;
            }
            i += 1;
        }
        let attack = stats[t].attack as usize;
        let power = moves[attack].power;
        moves[attack].power = (power * current_multiplier) / target_multiplier;
        proof {
            assert(stats@ =~= old(stats)@.update(
                t as int,
                EnemyStats {
                    str: reweighted(s0.str, current_multiplier, target_multiplier),
                    def: reweighted(s0.def, current_multiplier, target_multiplier),
                    spt: reweighted(s0.spt, current_multiplier, target_multiplier),
                    wis: reweighted(s0.wis, current_multiplier, target_multiplier),
                    spd: reweighted(s0.spd, current_multiplier, target_multiplier),
                    ..s0
                },
            ));
            assert forall|k: int| #[trigger] first_galacticmon(original@, k) implies k == phase_1 by {
                lemma_first_galacticmon_unique(original@, k, phase_1 as int);
            }
            assert forall|t2: int| #[trigger] first_stats(old(stats)@, phase_1_digimon_id as u16, t2) implies t2 == t by {
                lemma_first_stats_unique(old(stats)@, phase_1_digimon_id as u16, t2, t as int);
            }
        }
    } else {
        proof {
            assert forall|k: int| #[trigger] first_galacticmon(original@, k) implies k == phase_1 by {
                lemma_first_galacticmon_unique(original@, k, phase_1 as int);
            }
        }
    }
}

/// The encounters with the levels and hit points of the original data
/// put back.
pub open spec fn restored(original: Seq<EncounterData>, modified: Seq<EncounterData>) -> Seq<EncounterData> {
    Seq::new(
        modified.len(),
        |i: int|
            if i < original.len() {
                EncounterData { max_hp: original[i].max_hp, lv: original[i].lv, ..modified[i] }
            } else {
                modified[i]
            },
    )
}

/// Puts back the levels and hit points of the original encounters.
fn restore(original: &Vec<EncounterData>, modified: &mut Vec<EncounterData>)
    requires
        old(modified).len() >= original.len(),
    ensures
        final(modified)@ == restored(original@, old(modified)@),
{
    let mut i: usize = 0;
    while i < original.len()
        invariant
            i <= original.len() <= modified.len(),
            modified.len() == old(modified).len(),
            forall|q: int| 0 <= q < i ==> #[trigger] modified@[q] == restored(original@, old(modified)@)[q],
            forall|q: int| i <= q < modified.len() ==> #[trigger] modified@[q] == old(modified)@[q],
        decreases original.len() - i,
    {
        let hp = original[i].max_hp;
        let lv = original[i].lv;
        modified[i].max_hp = hp;
        modified[i].lv = lv;
        i += 1;
    }
    assert(modified@ =~= restored(original@, old(modified)@));
}

/// Scales the enemies with the given draws, one for each enemy: the
/// encounters get their original levels back (and hit points, which the
/// caller then multiplies by the preset's factor); enemy `j`'s stats and
/// resistances are scaled to targets for the level at which it is first
/// met, shifted by the modifier of draw `j` and fitted to its attack, and
/// its encounters' multipliers follow; finally the multipliers of
/// Galacticmon's first and third phases are evened out.
pub fn patch_with_draws(
    preset: &Scaling,
    original: &Vec<EncounterData>,
    encounters: &mut Vec<EncounterData>,
    enemy_stats: &mut Vec<EnemyStats>,
    moves: &mut Vec<MoveData>,
    draws: &Vec<u64>,
)
    requires
        old(encounters).len() >= original.len(),
        draws.len() == old(enemy_stats).len(),
        enemies_fit(*preset, restored(original@, old(encounters)@), old(enemy_stats)@, old(moves)@),
        forall|mid_e: Seq<EncounterData>, mid_s: Seq<EnemyStats>|
            #[trigger] enemies_scaled(
                *preset,
                restored(original@, old(encounters)@),
                mid_e,
                old(enemy_stats)@,
                mid_s,
                old(moves)@,
            ) ==> galacticmon_fits(original@, mid_e, mid_s, old(moves)@),
    ensures
        exists|mid_e: Seq<EncounterData>, mid_s: Seq<EnemyStats>|
            #[trigger] enemies_scaled_by(
                *preset,
                restored(original@, old(encounters)@),
                mid_e,
                old(enemy_stats)@,
                mid_s,
                old(moves)@,
                draws@,
            ) && galacticmon_fixed(
                original@,
                mid_e,
                final(encounters)@,
                mid_s,
                final(enemy_stats)@,
                old(moves)@,
                final(moves)@,
            ),
{
    restore(original, encounters);
    scale_enemies(preset, encounters, enemy_stats, moves, draws);
    let ghost mid_e = encounters@;
    let ghost mid_s = enemy_stats@;
    proof {
        let r = restored(original@, old(encounters)@);
        assert(enemies_scaled_by(*preset, r, mid_e, old(enemy_stats)@, mid_s, old(moves)@, draws@));
        lemma_scaled_by_draws(*preset, r, mid_e, old(enemy_stats)@, mid_s, old(moves)@, draws@);
        assert(enemies_scaled(*preset, r, mid_e, old(enemy_stats)@, mid_s, old(moves)@));
    }
    galacticmon_fix(original, encounters, enemy_stats, moves);
}

/// Scales the enemies as `patch_with_draws` does, with one `next_u64` draw
/// for each enemy, in order, when the preset has an offset (and none
/// without one).
pub fn patch(
    preset: &Scaling,
    original: &Vec<EncounterData>,
    encounters: &mut Vec<EncounterData>,
    enemy_stats: &mut Vec<EnemyStats>,
    moves: &mut Vec<MoveData>,
    rng: &mut Xoshiro256StarStar,
)
    requires
        old(encounters).len() >= original.len(),
        enemies_fit(*preset, restored(original@, old(encounters)@), old(enemy_stats)@, old(moves)@),
        forall|mid_e: Seq<EncounterData>, mid_s: Seq<EnemyStats>|
            #[trigger] enemies_scaled(
                *preset,
                restored(original@, old(encounters)@),
                mid_e,
                old(enemy_stats)@,
                mid_s,
                old(moves)@,
            ) ==> galacticmon_fits(original@, mid_e, mid_s, old(moves)@),
    ensures
        exists|draws: Seq<u64>, mid_e: Seq<EncounterData>, mid_s: Seq<EnemyStats>|
            #[trigger] enemies_scaled_by(
                *preset,
                restored(original@, old(encounters)@),
                mid_e,
                old(enemy_stats)@,
                mid_s,
                old(moves)@,
                draws,
            ) && galacticmon_fixed(
                original@,
                mid_e,
                final(encounters)@,
                mid_s,
                final(enemy_stats)@,
                old(moves)@,
                final(moves)@,
            ),
{
    let mut draws: Vec<u64> = Vec::new();
    let n = enemy_stats.len();
    let mut j: usize = 0;
    while j < n
        invariant
            j <= n,
            draws.len() == j,
        decreases n - j,
    {
        if preset.scaling_offset != 0 {
            draws.push(next_u64(rng));
        } else {
            draws.push(0);
        }
        j += 1;
    }
    patch_with_draws(preset, original, encounters, enemy_stats, moves, &draws);
}

} // verus!
