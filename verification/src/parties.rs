//! Player parties: starting members, stats, affinities, moves and
//! digivolutions.

use crate::rng::{next_u32, next_u64};
use crate::structs::{DigivolutionCondition, DigivolutionConditions, DigivolutionData};
use crate::util::{
    copy_vec, draw_count, lemma_picked_push, picked, shuffle, take_drawn, shuffle_draws, shuffle_outcome, shuffle_with_draws, shuffled, sorted_unique,
    strictly_increasing, swapped,
};
use rand_xoshiro::Xoshiro256StarStar;
use vstd::prelude::*;

verus! {

broadcast use vstd::seq_lib::group_to_multiset_ensures;

/// Why a party randomization stopped.
#[derive(Debug, Clone, Copy, PartialEq, Eq, Structural)]
pub enum PartiesError {
    /// All the weights drawn for a distribution were zero, so the total
    /// cannot be shared out.
    ZeroWeights,
}

/// A permutation of a sequence without duplicates has none either.
pub proof fn lemma_permutation_no_duplicates<T>(a: Seq<T>, b: Seq<T>)
    requires
        a.no_duplicates(),
        a.to_multiset() == b.to_multiset(),
    ensures
        b.no_duplicates(),
{
    a.lemma_multiset_has_no_duplicates();
    b.lemma_multiset_has_no_duplicates_conv();
}

/// The three parties are written to `parties[0..9]`, three members each.
pub open spec fn parties_valid(parties: Seq<u8>) -> bool {
    &&& parties.len() >= 9
    &&& forall|i: int, j: int| 0 <= i < 3 && 0 <= j < 3 ==> #[trigger] parties[3 * i + j] < 8
    &&& forall|i: int, j1: int, j2: int|
        0 <= i < 3 && 0 <= j1 < j2 < 3 ==> #[trigger] parties[3 * i + j1] != #[trigger] parties[3
            * i + j2]
}

/// The order of the rookies after the first `n` of the shuffles with the
/// given draws, starting from 0 to 7.
pub open spec fn rookie_order(draws: Seq<Seq<usize>>, n: int) -> Seq<u8>
    decreases n,
{
    if n <= 0 {
        seq![0u8, 1, 2, 3, 4, 5, 6, 7]
    } else {
        shuffled(rookie_order(draws, n - 1), draws[n - 1])
    }
}

/// The views of lists of draws.
pub open spec fn draw_lists(draws: Seq<Vec<usize>>) -> Seq<Seq<usize>> {
    draws.map_values(|d: Vec<usize>| d@)
}

/// The parties that the draws give: party `i` is the window of three from
/// `window_draw % 6` of the rookie order after `i + 1` shuffles; the rest
/// of the list stays.
pub open spec fn parties_drawn(old_p: Seq<u8>, new_p: Seq<u8>, window_draw: u64, draws: Seq<Seq<usize>>) -> bool {
    &&& new_p.len() == old_p.len()
    &&& forall|i: int, j: int|
        0 <= i < 3 && 0 <= j < 3 ==> #[trigger] new_p[3 * i + j] == rookie_order(draws, i + 1)[(window_draw % 6) + j]
    &&& forall|k: int| 9 <= k < old_p.len() ==> #[trigger] new_p[k] == old_p[k]
}

/// Sets the three starting parties from the given draws: the window
/// starts at `window_draw % 6`; the rookies 0 to 7 are shuffled with
/// `draws[0]`, then again with `draws[1]` and `draws[2]`, and party `i`
/// takes the window of the order after the `i + 1`-th shuffle.
pub fn random_parties_with_draws(parties: &mut Vec<u8>, window_draw: u64, draws: &Vec<Vec<usize>>)
    requires
        old(parties).len() >= 9,
        draws.len() == 3,
    ensures
        parties_drawn(old(parties)@, final(parties)@, window_draw, draw_lists(draws@)),
        parties_valid(final(parties)@),
{
    let mut all_digimon: Vec<u8> = vec![0, 1, 2, 3, 4, 5, 6, 7];
    let ghost rookies = all_digimon@;
    proof {
        assert forall|a: int, b: int| 0 <= a < b < 8 implies rookies[a] != rookies[b] by {
            assert(rookies[a] == a && rookies[b] == b);
        }
        assert(rookies.no_duplicates());
    }
    let rindex = (window_draw % 6) as usize;
    let mut i: usize = 0;
    while i < 3
        invariant
            rookies.len() == 8,
            rookies.no_duplicates(),
            forall|k: int| 0 <= k < 8 ==> rookies[k] < 8,
            all_digimon@.to_multiset() == rookies.to_multiset(),
            all_digimon.len() == 8,
            draws.len() == 3,
            all_digimon@ == rookie_order(draw_lists(draws@), i as int),
            rindex == window_draw % 6,
            forall|a: int, j: int|
                0 <= a < i && 0 <= j < 3 ==> #[trigger] parties@[3 * a + j] == rookie_order(draw_lists(draws@), a + 1)[rindex
                    + j],
            rindex < 6,
            i <= 3,
            parties.len() == old(parties).len() >= 9,
            forall|a: int, j: int| 0 <= a < i && 0 <= j < 3 ==> #[trigger] parties@[3 * a + j] < 8,
            forall|a: int, j1: int, j2: int|
                0 <= a < i && 0 <= j1 < j2 < 3 ==> #[trigger] parties@[3 * a + j1]
                    != #[trigger] parties@[3 * a + j2],
            forall|k: int| 3 * i <= k < parties.len() ==> #[trigger] parties@[k] == old(parties)@[k],
        decreases 3 - i,
    {
        let ghost prev = all_digimon@;
        shuffle_with_draws(&mut all_digimon, &draws[i]);
        proof {
            assert(all_digimon@ == rookie_order(draw_lists(draws@), i + 1));
            lemma_permutation_no_duplicates(rookies, all_digimon@);
            assert forall|k: int| 0 <= k < 8 implies all_digimon@[k] < 8 by {
                assert(all_digimon@.to_multiset().count(all_digimon@[k]) > 0);
                assert(rookies.contains(all_digimon@[k]));
            }
        }
        let ghost before = parties@;
        let mut j: usize = 0;
        while j < 3
            invariant
                i < 3,
                j <= 3,
                rindex < 6,
                all_digimon.len() == 8,
                all_digimon@.no_duplicates(),
                forall|k: int| 0 <= k < 8 ==> all_digimon@[k] < 8,
                parties.len() == before.len() >= 9,
                forall|k: int| 0 <= k < j ==> #[trigger] parties@[3 * i + k] == all_digimon@[rindex + k],
                forall|k: int| 0 <= k < 3 * i ==> #[trigger] parties@[k] == before[k],
                forall|k: int| 3 * i + j <= k < parties.len() ==> #[trigger] parties@[k] == before[k],
            decreases 3 - j,
        {
            parties.set(i * 3 + j, all_digimon[rindex + j]);
            j += 1;
        }
        proof {
            assert forall|a: int, jj: int|
                0 <= a < i + 1 && 0 <= jj < 3 implies #[trigger] parties@[3 * a + jj] == rookie_order(
                draw_lists(draws@),
                a + 1,
            )[rindex + jj] by {
                if a < i {
                    assert(parties@[3 * a + jj] == before[3 * a + jj]);
                }
            }
            assert forall|a: int, jj: int| 0 <= a < i + 1 && 0 <= jj < 3 implies #[trigger] parties@[3 * a + jj] < 8 by {
                if a < i {
                    assert(parties@[3 * a + jj] == before[3 * a + jj]);
                } else {
                    assert(parties@[3 * i + jj] == all_digimon@[rindex + jj]);
                }
            }
            assert forall|a: int, j1: int, j2: int|
                0 <= a < i + 1 && 0 <= j1 < j2 < 3 implies #[trigger] parties@[3 * a + j1]
                    != #[trigger] parties@[3 * a + j2] by {
                if a < i {
                    assert(parties@[3 * a + j1] == before[3 * a + j1]);
                    assert(parties@[3 * a + j2] == before[3 * a + j2]);
                } else {
                    assert(parties@[3 * i + j1] == all_digimon@[rindex + j1]);
                    assert(parties@[3 * i + j2] == all_digimon@[rindex + j2]);
                }
            }
        }
        i += 1;
    }
}


/// Draws three starting parties of three of the eight rookies each: a
/// window of three is picked once, then the rookies are shuffled three
/// times, and each party takes that window of the order after its shuffle
/// (`random_parties_with_draws`). No party holds a rookie twice.
pub fn random_parties(parties: &mut Vec<u8>, shuffles: u8, rng: &mut Xoshiro256StarStar)
    requires
        old(parties).len() >= 9,
    ensures
        final(parties).len() == old(parties).len(),
        parties_valid(final(parties)@),
        forall|k: int| 9 <= k < old(parties).len() ==> #[trigger] final(parties)@[k] == old(parties)@[k],
        exists|window_draw: u64, draws: Seq<Seq<usize>>|
            #![trigger parties_drawn(old(parties)@, final(parties)@, window_draw, draws)]
            {
                &&& draws.len() == 3
                &&& forall|i: int| 0 <= i < 3 ==> (#[trigger] draws[i]).len() == draw_count(8, shuffles as int)
                &&& parties_drawn(old(parties)@, final(parties)@, window_draw, draws)
            },
{
    let window_draw = next_u64(rng);
    let mut draws: Vec<Vec<usize>> = Vec::new();
    let mut i: usize = 0;
    while i < 3
        invariant
            i <= 3,
            draws.len() == i,
            forall|k: int| 0 <= k < i ==> (#[trigger] draws@[k])@.len() == draw_count(8, shuffles as int),
        decreases 3 - i,
    {
        draws.push(shuffle_draws(8, shuffles, rng));
        i += 1;
    }
    random_parties_with_draws(parties, window_draw, &draws);
}

/// A base stat or resistance of a player Digimon.
#[derive(Clone, Copy, Debug, PartialEq, Eq, Structural)]
pub enum Stat {
    Str,
    Def,
    Spt,
    Wis,
    Spd,
    FirRes,
    WtrRes,
    IceRes,
    WndRes,
    ThdRes,
    MchRes,
    DrkRes,
}

/// The value of a stat.
pub open spec fn stat_value(d: DigivolutionData, stat: Stat) -> u16 {
    match stat {
        Stat::Str => d.str,
        Stat::Def => d.def,
        Stat::Spt => d.spt,
        Stat::Wis => d.wis,
        Stat::Spd => d.spd,
        Stat::FirRes => d.fir_res,
        Stat::WtrRes => d.wtr_res,
        Stat::IceRes => d.ice_res,
        Stat::WndRes => d.wnd_res,
        Stat::ThdRes => d.thd_res,
        Stat::MchRes => d.mch_res,
        Stat::DrkRes => d.drk_res,
    }
}

/// The records agree in the fields that no party randomizer touches:
/// charisma, attack, the digivolution tech, the status rates, the tech
/// levels and the unknown fields.
pub open spec fn same_untouched(a: DigivolutionData, b: DigivolutionData) -> bool {
    &&& a.chr == b.chr
    &&& a.attack == b.attack
    &&& a.dv_tech == b.dv_tech
    &&& a.psn_rate == b.psn_rate
    &&& a.par_rate == b.par_rate
    &&& a.cnf_rate == b.cnf_rate
    &&& a.slp_rate == b.slp_rate
    &&& a.ko_rate == b.ko_rate
    &&& a.tech_learn_level == b.tech_learn_level
    &&& a.tech_load_level == b.tech_load_level
    &&& a.unk0 == b.unk0
    &&& a.dv == b.dv
    &&& a.unk1 == b.unk1
    &&& a.unk == b.unk
    &&& a.unk_arr_1 == b.unk_arr_1
}

/// The two records differ at most in their base stats and resistances.
pub open spec fn same_but_stats(a: DigivolutionData, b: DigivolutionData) -> bool {
    &&& same_untouched(a, b)
    &&& a.digimon_id == b.digimon_id
    &&& a.tech == b.tech
    &&& a.ori_tech == b.ori_tech
    &&& a.exp_modifier == b.exp_modifier
    &&& a.hp_modifier == b.hp_modifier
    &&& a.mp_modifier == b.mp_modifier
    &&& a.stat_offsets == b.stat_offsets
    &&& a.res_offsets == b.res_offsets
}

impl Stat {
    /// Sets the stat to `amount`, leaving every other field as it is.
    pub fn set(&self, ddata: &mut DigivolutionData, amount: u16)
        ensures
            stat_value(*final(ddata), *self) == amount,
            same_but_stats(*old(ddata), *final(ddata)),
            forall|other: Stat| other != *self ==> stat_value(*final(ddata), other) == stat_value(
                *old(ddata),
                other,
            ),
    {
        match self {
            Stat::Str => ddata.str = amount,
            Stat::Def => ddata.def = amount,
            Stat::Spt => ddata.spt = amount,
            Stat::Wis => ddata.wis = amount,
            Stat::Spd => ddata.spd = amount,
            Stat::FirRes => ddata.fir_res = amount,
            Stat::WtrRes => ddata.wtr_res = amount,
            Stat::IceRes => ddata.ice_res = amount,
            Stat::WndRes => ddata.wnd_res = amount,
            Stat::ThdRes => ddata.thd_res = amount,
            Stat::MchRes => ddata.mch_res = amount,
            Stat::DrkRes => ddata.drk_res = amount,
        }
    }
}

/// Sum of the values.
pub open spec fn sum_u16(s: Seq<u16>) -> int
    decreases s.len(),
{
    if s.len() == 0 {
        0
    } else {
        sum_u16(s.drop_last()) + s.last()
    }
}

/// Sum of the weights.
pub open spec fn sum_u64(s: Seq<u64>) -> int
    decreases s.len(),
{
    if s.len() == 0 {
        0
    } else {
        sum_u64(s.drop_last()) + s.last()
    }
}

/// The share of `amount` that weight `w` gets out of the total weight.
pub open spec fn share(w: int, amount: int, total_weight: int) -> int {
    (w * amount) / total_weight
}

/// What each of the values gets when `total` is shared out by the given
/// weights: `min` plus the share of its weight of what is left above the
/// minimums, rounded down.
pub open spec fn distribution(weights: Seq<u64>, total: int, min: int) -> Seq<int> {
    Seq::new(weights.len(), |k: int| min + share(weights[k] as int, total - min * weights.len(), sum_u64(weights)))
}

/// The weights are draws of `next_u32`, widened to `u64`.
pub open spec fn u32_weights(weights: Seq<u64>) -> bool {
    forall|k: int| 0 <= k < weights.len() ==> #[trigger] weights[k] <= u32::MAX
}

/// The outcome of sharing `total` out by the given weights: the values of
/// `distribution`, or `ZeroWeights` when all the weights are zero.
pub open spec fn distributed_by(weights: Seq<u64>, total: int, min: int, res: Result<Vec<u16>, PartiesError>) -> bool {
    match res {
        Ok(values) => {
            &&& sum_u64(weights) > 0
            &&& values@.len() == weights.len()
            &&& forall|k: int| 0 <= k < weights.len() ==> #[trigger] values@[k] == distribution(weights, total, min)[k]
        },
        Err(e) => sum_u64(weights) == 0 && e == PartiesError::ZeroWeights,
    }
}

/// Shares `total` out over `count` values of at least `min` each: draws a
/// random weight for every value with `next_u32` and shares out by those
/// weights (`distribute_with_weights`). The values thus add up to `total`
/// less less than one per value.
pub fn distribute(total: u16, min: u16, count: usize, rng: &mut Xoshiro256StarStar) -> (res: Result<Vec<u16>, PartiesError>)
    requires
        1 <= count <= 16,
        min * count <= total,
    ensures
        exists|weights: Seq<u64>|
            #![trigger distributed_by(weights, total as int, min as int, res)]
            weights.len() == count && u32_weights(weights) && distributed_by(weights, total as int, min as int, res),
        res matches Ok(values) ==> {
            &&& values.len() == count
            &&& forall|k: int| 0 <= k < count ==> #[trigger] values@[k] >= min
            &&& total - count < sum_u16(values@) <= total
        },
{
    let mut weights: Vec<u64> = Vec::new();
    let mut i: usize = 0;
    while i < count
        invariant
            i <= count <= 16,
            weights.len() == i,
            u32_weights(weights@),
        decreases count - i,
    {
        let w = next_u32(rng) as u64;
        weights.push(w);
        i += 1;
    }
    let res = distribute_with_weights(total, min, &weights);
    proof {
        assert(distributed_by(weights@, total as int, min as int, res));
    }
    res
}

/// Shares `total` out by the given weights, at least `min` for each:
/// every value is `min` plus its weight's share of what is left above the
/// minimums, rounded down. Fails when all the weights are zero.
pub fn distribute_with_weights(total: u16, min: u16, weights: &Vec<u64>) -> (res: Result<Vec<u16>, PartiesError>)
    requires
        1 <= weights.len() <= 16,
        min * weights.len() <= total,
        u32_weights(weights@),
    ensures
        distributed_by(weights@, total as int, min as int, res),
        res matches Ok(values) ==> {
            &&& values.len() == weights.len()
            &&& forall|k: int| 0 <= k < weights.len() ==> #[trigger] values@[k] >= min
            &&& total - weights.len() < sum_u16(values@) <= total
        },
{
    let count = weights.len();
    let min_sum = min as u64 * count as u64;
    let before_addition = total as u64 - min_sum;
    let mut sum: u64 = 0;
    let mut i: usize = 0;
    while i < count
        invariant
            count == weights.len() <= 16,
            i <= count,
            u32_weights(weights@),
            sum == sum_u64(weights@.take(i as int)),
            sum <= i * 0xffff_ffff,
        decreases count - i,
    {
        proof {
            lemma_sum_u64_take(weights@, i as int);
        }
        sum = sum + weights[i];
        i += 1;
    }
    proof {
        assert(weights@.take(count as int) =~= weights@);
    }
    if sum == 0 {
        return Err(PartiesError::ZeroWeights);
    }
    let ghost s = sum as int;
    let ghost ba = before_addition as int;
    let mut values: Vec<u16> = Vec::new();
    let ghost mut acc: int = 0;
    let mut j: usize = 0;
    while j < count
        invariant
            j <= count <= 16,
            weights.len() == count,
            s == sum == sum_u64(weights@),
            s > 0,
            ba == before_addition,
            ba == total - min * count,
            0 <= ba <= total - min * count,
            forall|k: int| 0 <= k < j ==> #[trigger] values@[k] == distribution(weights@, total as int, min as int)[k],
            forall|k: int| 0 <= k < count ==> #[trigger] weights@[k] <= 0xffff_ffff,
            values.len() == j,
            forall|k: int| 0 <= k < j ==> #[trigger] values@[k] >= min,
            acc == sum_u16(values@) - min * j,
            acc * s <= ba * sum_u64(weights@.take(j as int)),
            acc * s + j * s >= ba * sum_u64(weights@.take(j as int)) + j,
            sum_u64(weights@.take(j as int)) <= s,
        decreases count - j,
    {
        let w = weights[j];
        proof {
            lemma_sum_u64_take(weights@, j as int);
            lemma_sum_u64_take_le(weights@, j as int + 1);
            lemma_sum_u64_take_le(weights@, j as int);
            assert(min * count >= min) by (nonlinear_arith)
                requires count >= 1;
            assert(w * ba <= 0xffff_ffff * 0xffff) by (nonlinear_arith)
                requires w <= 0xffff_ffff, 0 <= ba <= 0xffff;
        }
        let q = (w * before_addition) / sum;
        proof {
            let x = w * ba;
            let r = x % s;
            vstd::arithmetic::div_mod::lemma_fundamental_div_mod(x, s);
            vstd::arithmetic::div_mod::lemma_mod_bound(x, s);
            assert(q == x / s);
            assert(q * s <= x) by (nonlinear_arith)
                requires x == s * q + r, 0 <= r < s;
            assert(q * s + s >= x + 1) by (nonlinear_arith)
                requires x == s * q + r, 0 <= r < s;
            let t0 = sum_u64(weights@.take(j as int));
            let t1 = sum_u64(weights@.take(j as int + 1));
            assert(t1 == t0 + w);
            assert(w <= s);
            assert(x <= s * ba) by (nonlinear_arith)
                requires x == w * ba, w <= s, ba >= 0;
            assert(q <= ba) by (nonlinear_arith)
                requires q * s <= x, x <= s * ba, s > 0;
        }
        let v = (q as u16) + min;
        let ghost before_vals = values@;
        values.push(v);
        proof {
            assert(v == distribution(weights@, total as int, min as int)[j as int]);
            assert(values@.drop_last() =~= before_vals);
            let x = w * ba;
            let t0 = sum_u64(weights@.take(j as int));
            let t1 = sum_u64(weights@.take(j as int + 1));
            assert(values@.drop_last() =~= values@.subrange(0, j as int));
            assert(sum_u16(values@) == sum_u16(values@.drop_last()) + v);
            let old_acc = acc;
            acc = acc + q;
            assert(v == q + min);
            assert(min * (j + 1) == min * j + min) by (nonlinear_arith);
            assert(acc * s <= ba * t1) by (nonlinear_arith)
                requires acc == old_acc + q, old_acc * s <= ba * t0, q * s <= x, x == w * ba, t1 == t0 + w;
            assert(acc * s + (j + 1) * s >= ba * t1 + (j + 1)) by (nonlinear_arith)
                requires acc == old_acc + q, old_acc * s + j * s >= ba * t0 + j, q * s + s >= x + 1, x == w * ba,
                    t1 == t0 + w;
        }
        j += 1;
    }
    proof {
        assert(weights@.take(count as int) =~= weights@);
        assert(acc <= ba) by (nonlinear_arith)
            requires acc * s <= ba * s, s > 0;
        assert(acc > ba - count) by (nonlinear_arith)
            requires acc * s + count * s >= ba * s + count, s > 0, count >= 1;
    }
    Ok(values)
}

/// Taking one more weight adds it to the prefix sum.
proof fn lemma_sum_u64_take(w: Seq<u64>, j: int)
    requires
        0 <= j < w.len(),
    ensures
        sum_u64(w.take(j + 1)) == sum_u64(w.take(j)) + w[j],
{
    assert(w.take(j + 1).drop_last() =~= w.take(j));
}

/// Prefix sums are between zero and the whole sum.
proof fn lemma_sum_u64_take_le(w: Seq<u64>, j: int)
    requires
        0 <= j <= w.len(),
    ensures
        0 <= sum_u64(w.take(j)) <= sum_u64(w),
    decreases w.len() - j,
{
    if j == w.len() {
        assert(w.take(j) =~= w);
        lemma_sum_u64_nonneg(w);
    } else {
        lemma_sum_u64_take(w, j);
        lemma_sum_u64_take_le(w, j + 1);
        lemma_sum_u64_nonneg(w.take(j));
    }
}

/// Sums of weights are not negative.
proof fn lemma_sum_u64_nonneg(w: Seq<u64>)
    ensures
        sum_u64(w) >= 0,
    decreases w.len(),
{
    if w.len() > 0 {
        lemma_sum_u64_nonneg(w.drop_last());
    }
}


/// The base stats, in the order the distribution fills them.
pub open spec fn base_stats() -> Seq<Stat> {
    seq![Stat::Str, Stat::Def, Stat::Spt, Stat::Wis, Stat::Spd]
}

/// The resistances, in the order the distribution fills them.
pub open spec fn resistances() -> Seq<Stat> {
    seq![Stat::FirRes, Stat::WtrRes, Stat::IceRes, Stat::WndRes, Stat::ThdRes, Stat::MchRes, Stat::DrkRes]
}

/// Sum of the given stats of a record.
pub open spec fn stats_sum(d: DigivolutionData, stats: Seq<Stat>) -> int
    decreases stats.len(),
{
    if stats.len() == 0 {
        0
    } else {
        stats_sum(d, stats.drop_last()) + stat_value(d, stats.last())
    }
}

/// Writing the distributed values into the stats, in order.
fn write_stats(d: &mut DigivolutionData, stats: &Vec<Stat>, values: &Vec<u16>)
    requires
        stats.len() == values.len(),
        stats@.no_duplicates(),
    ensures
        same_but_stats(*old(d), *final(d)),
        forall|k: int| 0 <= k < stats.len() ==> stat_value(*final(d), #[trigger] stats@[k]) == values@[k],
        forall|st: Stat| !stats@.contains(st) ==> stat_value(*final(d), st) == stat_value(*old(d), st),
        stats_sum(*final(d), stats@) == sum_u16(values@),
{
    let mut i: usize = 0;
    while i < stats.len()
        invariant
            stats.len() == values.len(),
            stats@.no_duplicates(),
            i <= stats.len(),
            same_but_stats(*old(d), *d),
            forall|k: int| 0 <= k < i ==> stat_value(*d, #[trigger] stats@[k]) == values@[k],
            forall|st: Stat| !stats@.subrange(0, i as int).contains(st) ==> stat_value(*d, st) == stat_value(*old(d), st),
        decreases stats.len() - i,
    {
        let ghost before = *d;
        stats[i].set(d, values[i]);
        proof {
            assert forall|k: int| 0 <= k < i + 1 implies stat_value(*d, #[trigger] stats@[k]) == values@[k] by {
                if k < i {
                    assert(stats@[k] != stats@[i as int]);
                }
            }
            assert forall|st: Stat| !stats@.subrange(0, i + 1).contains(st) implies stat_value(*d, st) == stat_value(*old(d), st) by {
                assert(stats@.subrange(0, i + 1)[i as int] == stats@[i as int]);
                assert(st != stats@[i as int]);
                if stats@.subrange(0, i as int).contains(st) {
                    let k = choose|k: int| 0 <= k < i && stats@.subrange(0, i as int)[k] == st;
                    assert(stats@.subrange(0, i + 1)[k] == st);
                }
            }
        }
        i += 1;
    }
    proof {
        assert(stats@.subrange(0, i as int) =~= stats@);
        lemma_stats_sum(*d, stats@, values@);
    }
}

/// The sum of stats set to given values is the sum of those values.
proof fn lemma_stats_sum(d: DigivolutionData, stats: Seq<Stat>, values: Seq<u16>)
    requires
        stats.len() == values.len(),
        forall|k: int| 0 <= k < stats.len() ==> stat_value(d, #[trigger] stats[k]) == values[k],
    ensures
        stats_sum(d, stats) == sum_u16(values),
    decreases stats.len(),
{
    if stats.len() > 0 {
        lemma_stats_sum(d, stats.drop_last(), values.drop_last());
    }
}

/// The rookie's stats were shared out by the weights `w`: each of the
/// given stats is its value of `distribution`, at least `min`, they add up
/// to `total` less less than one per stat, and nothing else changed.
pub open spec fn distributed_with(
    old_d: DigivolutionData,
    new_d: DigivolutionData,
    stats: Seq<Stat>,
    total: int,
    min: int,
    w: Seq<u64>,
) -> bool {
    &&& same_but_stats(old_d, new_d)
    &&& forall|k: int| 0 <= k < stats.len() ==> stat_value(new_d, #[trigger] stats[k]) >= min
    &&& total - stats.len() < stats_sum(new_d, stats) <= total
    &&& forall|st: Stat| !stats.contains(st) ==> stat_value(new_d, st) == stat_value(old_d, st)
    &&& forall|k: int| 0 <= k < stats.len() ==> stat_value(new_d, #[trigger] stats[k]) == distribution(w, total, min)[k]
}

/// The first rookie from `r` on whose weights are all zero, or the number
/// of rookies when there is none.
pub open spec fn zero_from(ws: Seq<Seq<u64>>, r: int) -> int
    decreases ws.len() - r,
{
    if r < 0 || r >= ws.len() {
        ws.len() as int
    } else if sum_u64(ws[r]) == 0 {
        r
    } else {
        zero_from(ws, r + 1)
    }
}

/// What sharing out the stats of the rookies with the weights `ws`, one
/// list for each rookie, gives: it fails exactly when some rookie's
/// weights are all zero, at the first such rookie; the rookies before it
/// are distributed with their weights and the others are untouched.
pub open spec fn stats_outcome(
    old_r: Seq<DigivolutionData>,
    new_r: Seq<DigivolutionData>,
    stats: Seq<Stat>,
    total: int,
    min: int,
    ws: Seq<Seq<u64>>,
    res: Result<(), PartiesError>,
) -> bool {
    let f = zero_from(ws, 0);
    &&& new_r.len() == old_r.len()
    &&& (res is Ok <==> f == old_r.len())
    &&& (res matches Err(e) ==> e == PartiesError::ZeroWeights)
    &&& forall|k: int| 0 <= k < f && k < old_r.len() ==> distributed_with(#[trigger] old_r[k], new_r[k], stats, total, min, ws[k])
    &&& forall|k: int| f <= k < old_r.len() ==> #[trigger] new_r[k] == old_r[k]
}

/// Shares `total` out over the given stats of every rookie, at least `min`
/// each, with the rookie's own weights (`distribute_with_weights`), in
/// order. Stops with `ZeroWeights` at the first rookie whose weights are
/// all zero, the rookies before it distributed and the others untouched.
pub fn distribute_stats_with_weights(
    rookies: &mut Vec<DigivolutionData>,
    stats: &Vec<Stat>,
    total: u16,
    min: u16,
    weights: &Vec<Vec<u64>>,
) -> (res: Result<(), PartiesError>)
    requires
        1 <= stats.len() <= 16,
        stats@.no_duplicates(),
        min * stats.len() <= total,
        weights.len() == old(rookies).len(),
        forall|r: int| 0 <= r < weights.len() ==> (#[trigger] weights@[r])@.len() == stats.len() && u32_weights(weights@[r]@),
    ensures
        stats_outcome(old(rookies)@, final(rookies)@, stats@, total as int, min as int, draw_lists_u64(weights@), res),
{
    let ghost ws = draw_lists_u64(weights@);
    let mut r: usize = 0;
    while r < rookies.len()
        invariant
            1 <= stats.len() <= 16,
            stats@.no_duplicates(),
            min * stats.len() <= total,
            weights.len() == old(rookies).len(),
            forall|q: int| 0 <= q < weights.len() ==> (#[trigger] weights@[q])@.len() == stats.len() && u32_weights(weights@[q]@),
            ws == draw_lists_u64(weights@),
            r <= rookies.len() == old(rookies).len(),
            zero_from(ws, 0) == zero_from(ws, r as int),
            forall|k: int| 0 <= k < r ==> distributed_with(#[trigger] old(rookies)@[k], rookies@[k], stats@, total as int, min as int, ws[k]),
            forall|k: int| r <= k < rookies.len() ==> #[trigger] rookies@[k] == old(rookies)@[k],
        decreases rookies.len() - r,
    {
        assert(ws[r as int] == weights@[r as int]@);
        let values = match distribute_with_weights(total, min, &weights[r]) {
            Ok(values) => values,
            Err(e) => {
                proof {
                    assert(zero_from(ws, r as int) == r);
                    assert(old(rookies)@[r as int] == rookies@[r as int]);
                }
                return Err(e);
            },
        };
        let ghost before = rookies@;
        write_stats(&mut rookies[r], stats, &values);
        proof {
            assert(zero_from(ws, r as int) == zero_from(ws, r + 1));
            assert forall|k: int| 0 <= k < r + 1 implies distributed_with(
                #[trigger] old(rookies)@[k],
                rookies@[k],
                stats@,
                total as int,
                min as int,
                ws[k],
            ) by {
                if k < r {
                    assert(rookies@[k] == before[k]);
                }
            }
        }
        r += 1;
    }
    proof {
        assert(zero_from(ws, r as int) == old(rookies).len());
    }
    Ok(())
}

/// The views of lists of weights.
pub open spec fn draw_lists_u64(ws: Seq<Vec<u64>>) -> Seq<Seq<u64>> {
    ws.map_values(|w: Vec<u64>| w@)
}

/// Shares `total` out over the given stats of every rookie, at least `min`
/// each: draws a weight for every stat of every rookie with `next_u32`, in
/// order, and shares out with them (`distribute_stats_with_weights`).
pub fn distribute_stats(
    rookies: &mut Vec<DigivolutionData>,
    stats: &Vec<Stat>,
    total: u16,
    min: u16,
    rng: &mut Xoshiro256StarStar,
) -> (res: Result<(), PartiesError>)
    requires
        1 <= stats.len() <= 16,
        stats@.no_duplicates(),
        min * stats.len() <= total,
    ensures
        exists|ws: Seq<Seq<u64>>|
            #![trigger stats_outcome(old(rookies)@, final(rookies)@, stats@, total as int, min as int, ws, res)]
            {
                &&& ws.len() == old(rookies).len()
                &&& forall|r: int| 0 <= r < ws.len() ==> (#[trigger] ws[r]).len() == stats.len() && u32_weights(ws[r])
                &&& stats_outcome(old(rookies)@, final(rookies)@, stats@, total as int, min as int, ws, res)
            },
{
    let mut weights: Vec<Vec<u64>> = Vec::new();
    let mut r: usize = 0;
    while r < rookies.len()
        invariant
            r <= rookies.len(),
            weights.len() == r,
            forall|q: int| 0 <= q < r ==> (#[trigger] weights@[q])@.len() == stats.len() && u32_weights(weights@[q]@),
        decreases rookies.len() - r,
    {
        let mut w: Vec<u64> = Vec::new();
        let mut i: usize = 0;
        while i < stats.len()
            invariant
                i <= stats.len(),
                w.len() == i,
                u32_weights(w@),
            decreases stats.len() - i,
        {
            w.push(next_u32(rng) as u64);
            i += 1;
        }
        weights.push(w);
        r += 1;
    }
    let res = distribute_stats_with_weights(rookies, stats, total, min, &weights);
    proof {
        let ws = draw_lists_u64(weights@);
        assert forall|q: int| 0 <= q < ws.len() implies (#[trigger] ws[q]).len() == stats.len() && u32_weights(ws[q]) by {
            assert(ws[q] == weights@[q]@);
        }
    }
    res
}


/// The base stats, in the order the distribution fills them.
pub fn base_stat_list() -> (v: Vec<Stat>)
    ensures
        v@ == base_stats(),
        v@.no_duplicates(),
{
    let v = vec![Stat::Str, Stat::Def, Stat::Spt, Stat::Wis, Stat::Spd];
    assert(v@ =~= base_stats());
    v
}

/// The resistances, in the order the distribution fills them.
pub fn resistance_list() -> (v: Vec<Stat>)
    ensures
        v@ == resistances(),
        v@.no_duplicates(),
{
    let v = vec![
        Stat::FirRes,
        Stat::WtrRes,
        Stat::IceRes,
        Stat::WndRes,
        Stat::ThdRes,
        Stat::MchRes,
        Stat::DrkRes,
    ];
    assert(v@ =~= resistances());
    v
}

/// Which affinity table of a rookie.
#[derive(Clone, Copy, Debug, PartialEq, Eq, Structural)]
pub enum Affinities {
    Stats,
    Resistances,
}

/// The affinity table of a record.
pub open spec fn affinity_table(d: DigivolutionData, which: Affinities) -> Seq<u8> {
    match which {
        Affinities::Stats => d.stat_offsets@,
        Affinities::Resistances => d.res_offsets@,
    }
}

/// The records differ at most in the given affinity table.
pub open spec fn same_but_affinities(a: DigivolutionData, b: DigivolutionData, which: Affinities) -> bool {
    &&& same_untouched(a, b)
    &&& a.digimon_id == b.digimon_id
    &&& forall|st: Stat| stat_value(a, st) == stat_value(b, st)
    &&& a.tech == b.tech
    &&& a.ori_tech == b.ori_tech
    &&& a.exp_modifier == b.exp_modifier
    &&& a.hp_modifier == b.hp_modifier
    &&& a.mp_modifier == b.mp_modifier
    &&& which == Affinities::Stats ==> a.res_offsets == b.res_offsets
    &&& which == Affinities::Resistances ==> a.stat_offsets == b.stat_offsets
}

/// Sets every entry of the chosen affinity table of every rookie from its
/// draw: 1 plus the draw modulo 5.
pub fn random_affinities_with_draws(rookies: &mut Vec<DigivolutionData>, which: Affinities, draws: &Vec<Vec<u64>>)
    requires
        draws.len() == old(rookies).len(),
        forall|r: int| 0 <= r < old(rookies).len() ==> (#[trigger] draws@[r]).len() == affinity_table(old(rookies)@[r], which).len(),
    ensures
        final(rookies).len() == old(rookies).len(),
        forall|r: int| 0 <= r < old(rookies).len() ==> {
            &&& same_but_affinities(#[trigger] old(rookies)@[r], final(rookies)@[r], which)
            &&& affinity_table(final(rookies)@[r], which).len() == affinity_table(old(rookies)@[r], which).len()
            &&& forall|k: int| 0 <= k < affinity_table(final(rookies)@[r], which).len() ==>
                1 <= #[trigger] affinity_table(final(rookies)@[r], which)[k] <= 5
        },
        affinities_drawn(final(rookies)@, which, draws@.map_values(|v: Vec<u64>| v@)),
{
    let mut r: usize = 0;
    while r < rookies.len()
        invariant
            r <= rookies.len() == old(rookies).len() == draws.len(),
            forall|q: int| 0 <= q < old(rookies).len() ==> (#[trigger] draws@[q]).len() == affinity_table(old(rookies)@[q], which).len(),
            forall|q: int, k: int| 0 <= q < r && 0 <= k < affinity_table(rookies@[q], which).len() ==>
                #[trigger] affinity_table(rookies@[q], which)[k] == 1 + (draws@[q]@[k] as int) % 5,
            forall|q: int| 0 <= q < r ==> {
                &&& same_but_affinities(#[trigger] old(rookies)@[q], rookies@[q], which)
                &&& affinity_table(rookies@[q], which).len() == affinity_table(old(rookies)@[q], which).len()
                &&& forall|k: int| 0 <= k < affinity_table(rookies@[q], which).len() ==>
                    1 <= #[trigger] affinity_table(rookies@[q], which)[k] <= 5
            },
            forall|q: int| r <= q < rookies.len() ==> #[trigger] rookies@[q] == old(rookies)@[q],
        decreases rookies.len() - r,
    {
        let ghost before = rookies@;
        let d = &mut rookies[r];
        let len = match which {
            Affinities::Stats => d.stat_offsets.len(),
            Affinities::Resistances => d.res_offsets.len(),
        };
        let mut k: usize = 0;
        while k < len
            invariant
                r < before.len(),
                len == affinity_table(*d, which).len(),
                k <= len,
                same_but_affinities(before[r as int], *d, which),
                len == affinity_table(before[r as int], which).len(),
                forall|j: int| 0 <= j < k ==> 1 <= #[trigger] affinity_table(*d, which)[j] <= 5,
                forall|j: int| 0 <= j < k ==> #[trigger] affinity_table(*d, which)[j] == 1 + (draws@[r as int]@[j] as int) % 5,
                draws@[r as int].len() == len,
                r < draws.len(),
            decreases len - k,
        {
            let v = 1 + (draws[r][k] % 5) as u8;
            match which {
                Affinities::Stats => d.stat_offsets.set(k, v),
                Affinities::Resistances => d.res_offsets.set(k, v),
            }
            k += 1;
        }
        proof {
            assert forall|q: int| 0 <= q < r + 1 implies {
                &&& same_but_affinities(#[trigger] old(rookies)@[q], rookies@[q], which)
                &&& affinity_table(rookies@[q], which).len() == affinity_table(old(rookies)@[q], which).len()
                &&& forall|k: int| 0 <= k < affinity_table(rookies@[q], which).len() ==>
                    1 <= #[trigger] affinity_table(rookies@[q], which)[k] <= 5
            } by {
                if q < r {
                    assert(rookies@[q] == before[q]);
                }
            }
            assert forall|q: int, k: int| 0 <= q < r + 1 && 0 <= k < affinity_table(rookies@[q], which).len()
                implies #[trigger] affinity_table(rookies@[q], which)[k] == 1 + (draws@[q]@[k] as int) % 5 by {
                if q < r {
                    assert(rookies@[q] == before[q]);
                }
            }
        }
        r += 1;
    }
    assert forall|q: int, k: int|
        0 <= q < rookies.len() && 0 <= k < affinity_table(rookies@[q], which).len() implies #[trigger] affinity_table(
        rookies@[q],
        which,
    )[k] == 1 + (draws@.map_values(|v: Vec<u64>| v@)[q][k] as int) % 5 by {
        assert(draws@.map_values(|v: Vec<u64>| v@)[q] == draws@[q]@);
    }
}

/// Each entry of the chosen affinity table of each rookie is 1 plus its
/// draw modulo 5.
pub open spec fn affinities_drawn(ds: Seq<DigivolutionData>, which: Affinities, draws: Seq<Seq<u64>>) -> bool {
    &&& draws.len() == ds.len()
    &&& forall|r: int| 0 <= r < ds.len() ==> (#[trigger] draws[r]).len() == affinity_table(ds[r], which).len()
    &&& forall|r: int, k: int|
        0 <= r < ds.len() && 0 <= k < affinity_table(ds[r], which).len() ==> #[trigger] affinity_table(ds[r], which)[k] == 1
            + (draws[r][k] as int) % 5
}

/// Gives every entry of the chosen affinity table of every rookie a random
/// affinity from 1 to 5: one `next_u64` draw an entry, in order
/// (`random_affinities_with_draws`).
pub fn random_affinities(rookies: &mut Vec<DigivolutionData>, which: Affinities, rng: &mut Xoshiro256StarStar)
    ensures
        final(rookies).len() == old(rookies).len(),
        forall|r: int| 0 <= r < old(rookies).len() ==> {
            &&& same_but_affinities(#[trigger] old(rookies)@[r], final(rookies)@[r], which)
            &&& affinity_table(final(rookies)@[r], which).len() == affinity_table(old(rookies)@[r], which).len()
            &&& forall|k: int| 0 <= k < affinity_table(final(rookies)@[r], which).len() ==>
                1 <= #[trigger] affinity_table(final(rookies)@[r], which)[k] <= 5
        },
        exists|draws: Seq<Seq<u64>>| #[trigger] affinities_drawn(final(rookies)@, which, draws),
{
    let mut draws: Vec<Vec<u64>> = Vec::new();
    let mut r: usize = 0;
    while r < rookies.len()
        invariant
            r <= rookies.len(),
            draws.len() == r,
            forall|q: int| 0 <= q < r ==> (#[trigger] draws@[q]).len() == affinity_table(rookies@[q], which).len(),
        decreases rookies.len() - r,
    {
        let len = match which {
            Affinities::Stats => rookies[r].stat_offsets.len(),
            Affinities::Resistances => rookies[r].res_offsets.len(),
        };
        let mut row: Vec<u64> = Vec::new();
        let mut k: usize = 0;
        while k < len
            invariant
                k <= len,
                row.len() == k,
            decreases len - k,
        {
            row.push(next_u64(rng));
            k += 1;
        }
        draws.push(row);
        r += 1;
    }
    random_affinities_with_draws(rookies, which, &draws);
}

/// Which growth modifier of a rookie.
#[derive(Clone, Copy, Debug, PartialEq, Eq, Structural)]
pub enum Modifier {
    Exp,
    Hp,
    Mp,
}

/// The value of a growth modifier.
pub open spec fn modifier_value(d: DigivolutionData, which: Modifier) -> u8 {
    match which {
        Modifier::Exp => d.exp_modifier,
        Modifier::Hp => d.hp_modifier,
        Modifier::Mp => d.mp_modifier,
    }
}

/// The records differ at most in the given growth modifier.
pub open spec fn same_but_modifier(a: DigivolutionData, b: DigivolutionData, which: Modifier) -> bool {
    &&& same_untouched(a, b)
    &&& a.digimon_id == b.digimon_id
    &&& forall|st: Stat| stat_value(a, st) == stat_value(b, st)
    &&& a.tech == b.tech
    &&& a.ori_tech == b.ori_tech
    &&& a.stat_offsets == b.stat_offsets
    &&& a.res_offsets == b.res_offsets
    &&& forall|m: Modifier| m != which ==> modifier_value(a, m) == modifier_value(b, m)
}

/// Sets the chosen growth modifier of every rookie from its draw: `min`
/// plus the draw modulo the size of the range from `min` to `max`.
#[verifier::spinoff_prover]
pub fn random_modifiers_with_draws(
    rookies: &mut Vec<DigivolutionData>,
    which: Modifier,
    min: u8,
    max: u8,
    draws: &Vec<u64>,
)
    requires
        min <= max,
        max - min < 255,
        draws.len() == old(rookies).len(),
    ensures
        final(rookies).len() == old(rookies).len(),
        forall|r: int| 0 <= r < old(rookies).len() ==> {
            &&& same_but_modifier(#[trigger] old(rookies)@[r], final(rookies)@[r], which)
            &&& min <= modifier_value(final(rookies)@[r], which) <= max
            &&& modifier_value(final(rookies)@[r], which) == min + (draws@[r] as int) % (max - min + 1)
        },
        modifiers_drawn(final(rookies)@, which, min, max, draws@),
{
    let range = (max - min + 1) as u64;
    let mut r: usize = 0;
    while r < rookies.len()
        invariant
            min <= max,
            max - min < 255,
            range == max - min + 1,
            r <= rookies.len() == old(rookies).len() == draws.len(),
            forall|q: int| 0 <= q < r ==> {
                &&& same_but_modifier(#[trigger] old(rookies)@[q], rookies@[q], which)
                &&& min <= modifier_value(rookies@[q], which) <= max
                &&& modifier_value(rookies@[q], which) == min + (draws@[q] as int) % (max - min + 1)
            },
            forall|q: int| r <= q < rookies.len() ==> #[trigger] rookies@[q] == old(rookies)@[q],
        decreases rookies.len() - r,
    {
        let ghost before = rookies@;
        let v = min + (draws[r] % range) as u8;
        match which {
            Modifier::Exp => rookies[r].exp_modifier = v,
            Modifier::Hp => rookies[r].hp_modifier = v,
            Modifier::Mp => rookies[r].mp_modifier = v,
        }
        proof {
            assert forall|q: int| 0 <= q < r + 1 implies {
                &&& same_but_modifier(#[trigger] old(rookies)@[q], rookies@[q], which)
                &&& min <= modifier_value(rookies@[q], which) <= max
                &&& modifier_value(rookies@[q], which) == min + (draws@[q] as int) % (max - min + 1)
            } by {
                if q < r {
                    assert(rookies@[q] == before[q]);
                }
            }
        }
        r += 1;
    }
    assert forall|q: int| 0 <= q < old(rookies).len() implies {
        &&& same_but_modifier(#[trigger] old(rookies)@[q], rookies@[q], which)
        &&& min <= modifier_value(rookies@[q], which) <= max
        &&& modifier_value(rookies@[q], which) == min + (draws@[q] as int) % (max - min + 1)
    } by {
        assert(q < r);
    }
    assert forall|q: int| 0 <= q < rookies.len() implies #[trigger] modifier_value(rookies@[q], which) == min + (
    draws@[q] as int) % (max - min + 1) by {
        assert(same_but_modifier(old(rookies)@[q], rookies@[q], which));
    }
}

/// Gives the chosen growth modifier of every rookie a random value from
/// `min` to `max`: one `next_u64` draw a rookie, in order
/// (`random_modifiers_with_draws`).
pub fn random_modifiers(
    rookies: &mut Vec<DigivolutionData>,
    which: Modifier,
    min: u8,
    max: u8,
    rng: &mut Xoshiro256StarStar,
)
    requires
        min <= max,
        max - min < 255,
    ensures
        final(rookies).len() == old(rookies).len(),
        forall|r: int| 0 <= r < old(rookies).len() ==> {
            &&& same_but_modifier(#[trigger] old(rookies)@[r], final(rookies)@[r], which)
            &&& min <= modifier_value(final(rookies)@[r], which) <= max
        },
        exists|draws: Seq<u64>| #[trigger] modifiers_drawn(final(rookies)@, which, min, max, draws),
{
    let mut draws: Vec<u64> = Vec::new();
    let mut r: usize = 0;
    while r < rookies.len()
        invariant
            r <= rookies.len(),
            draws.len() == r,
        decreases rookies.len() - r,
    {
        draws.push(next_u64(rng));
        r += 1;
    }
    random_modifiers_with_draws(rookies, which, min, max, &draws);
    assert(modifiers_drawn(rookies@, which, min, max, draws@));
}

/// Each rookie's chosen growth modifier is `min` plus its draw modulo the
/// size of the range from `min` to `max`.
pub open spec fn modifiers_drawn(ds: Seq<DigivolutionData>, which: Modifier, min: u8, max: u8, draws: Seq<u64>) -> bool {
    &&& draws.len() == ds.len()
    &&& forall|r: int| 0 <= r < ds.len() ==> #[trigger] modifier_value(ds[r], which) == min + (draws[r] as int) % (max - min + 1)
}


/// The techs of all the records, in order.
pub open spec fn all_techs(ds: Seq<DigivolutionData>) -> Seq<u16>
    decreases ds.len(),
{
    if ds.len() == 0 {
        Seq::empty()
    } else {
        all_techs(ds.drop_last()) + ds.last().tech@
    }
}

/// The techs that some record can learn: every tech but the empty slot 0.
pub open spec fn learnable_techs(ds: Seq<DigivolutionData>) -> Set<u16> {
    all_techs(ds).to_set().remove(0)
}

/// How many slots hold a tech.
pub open spec fn nonzero_count(s: Seq<u16>) -> nat
    decreases s.len(),
{
    if s.len() == 0 {
        0
    } else {
        nonzero_count(s.drop_last()) + if s.last() != 0 {
            1nat
        } else {
            0nat
        }
    }
}

/// The records differ at most in their techs.
pub open spec fn same_but_techs(a: DigivolutionData, b: DigivolutionData) -> bool {
    &&& same_untouched(a, b)
    &&& a.digimon_id == b.digimon_id
    &&& forall|st: Stat| stat_value(a, st) == stat_value(b, st)
    &&& a.ori_tech == b.ori_tech
    &&& a.stat_offsets == b.stat_offsets
    &&& a.res_offsets == b.res_offsets
    &&& forall|m: Modifier| modifier_value(a, m) == modifier_value(b, m)
}

/// What `learned_moves` does to one record.
pub open spec fn moves_relearned(old_d: DigivolutionData, new_d: DigivolutionData, learnable: Set<u16>) -> bool {
    &&& same_but_techs(old_d, new_d)
    &&& new_d.tech@.len() == old_d.tech@.len()
    &&& forall|k: int| 0 <= k < old_d.tech@.len() ==> (#[trigger] old_d.tech@[k] == 0 <==> new_d.tech@[k] == 0)
    &&& forall|k: int| 0 <= k < old_d.tech@.len() && old_d.tech@[k] != 0 ==> learnable.contains(#[trigger] new_d.tech@[k])
    &&& forall|k1: int, k2: int|
        0 <= k1 < k2 < old_d.tech@.len() && old_d.tech@[k1] != 0 && old_d.tech@[k2] != 0
            ==> #[trigger] new_d.tech@[k1] != #[trigger] new_d.tech@[k2]
}

/// Counting slots over a longer prefix.
proof fn lemma_nonzero_count_take(s: Seq<u16>, k: int)
    requires
        0 <= k < s.len(),
    ensures
        nonzero_count(s.take(k + 1)) == nonzero_count(s.take(k)) + if s[k] != 0 { 1nat } else { 0nat },
{
    assert(s.take(k + 1).drop_last() =~= s.take(k));
}

/// A prefix holds no more techs than the whole.
proof fn lemma_nonzero_count_take_le(s: Seq<u16>, k: int)
    requires
        0 <= k <= s.len(),
    ensures
        nonzero_count(s.take(k)) <= nonzero_count(s),
    decreases s.len() - k,
{
    if k == s.len() {
        assert(s.take(k) =~= s);
    } else {
        lemma_nonzero_count_take(s, k);
        lemma_nonzero_count_take_le(s, k + 1);
    }
}

/// The learnable techs, in increasing order.
fn learnable_list(originals: &Vec<DigivolutionData>) -> (list: Vec<u16>)
    ensures
        strictly_increasing(list@),
        list@.no_duplicates(),
        list@.to_set() == learnable_techs(originals@),
        list.len() == learnable_techs(originals@).len(),
{
    let mut flat: Vec<u16> = Vec::new();
    let mut i: usize = 0;
    while i < originals.len()
        invariant
            i <= originals.len(),
            flat@ == all_techs(originals@.take(i as int)),
        decreases originals.len() - i,
    {
        let mut k: usize = 0;
        let ghost before = flat@;
        while k < originals[i].tech.len()
            invariant
                i < originals.len(),
                k <= originals@[i as int].tech@.len(),
                flat@ == before + originals@[i as int].tech@.take(k as int),
            decreases originals@[i as int].tech@.len() - k,
        {
            flat.push(originals[i].tech[k]);
            k += 1;
            assert(flat@ =~= before + originals@[i as int].tech@.take(k as int));
        }
        proof {
            assert(originals@[i as int].tech@.take(k as int) =~= originals@[i as int].tech@);
            assert(originals@.take(i + 1).drop_last() =~= originals@.take(i as int));
        }
        i += 1;
    }
    assert(originals@.take(i as int) =~= originals@);
    let mut list = sorted_unique(&flat);
    if list.len() > 0 && list[0] == 0 {
        let ghost before = list@;
        list.remove(0);
        proof {
            assert forall|a: int, b: int| 0 <= a < b < list@.len() implies list@[a] < list@[b] by {
                assert(list@[a] == before[a + 1]);
                assert(list@[b] == before[b + 1]);
            }
            assert forall|y: u16| #[trigger] list@.contains(y) <==> learnable_techs(originals@).contains(y) by {
                if list@.contains(y) {
                    let k = choose|k: int| 0 <= k < list@.len() && list@[k] == y;
                    assert(before[k + 1] == y);
                    assert(before[0] < before[k + 1]);
                    assert(before.to_set().contains(y));
                }
                if learnable_techs(originals@).contains(y) {
                    assert(before.to_set().contains(y));
                    let k = choose|k: int| 0 <= k < before.len() && before[k] == y;
                    assert(k != 0);
                    assert(list@[k - 1] == y);
                }
            }
        }
    } else {
        proof {
            assert forall|y: u16| #[trigger] list@.contains(y) <==> learnable_techs(originals@).contains(y) by {
                if list@.contains(y) {
                    assert(list@.to_set().contains(y));
                    if y == 0 {
                        let k = choose|k: int| 0 <= k < list@.len() && list@[k] == y;
                        assert(list@[0] <= list@[k]);
                    }
                }
            }
        }
    }
    proof {
        crate::util::lemma_increasing_no_duplicates(list@);
        assert(list@.to_set() =~= learnable_techs(originals@));
        list@.unique_seq_to_set();
    }
    list
}

/// Gives every record new techs in the slots that hold one: techs that some
/// original record learns, drawn without repetition, so that no record
/// learns a tech twice.
/// Slot `k` of form `r` takes the next of the form's own draws.
pub fn learned_moves_with_draws(
    originals: &Vec<DigivolutionData>,
    modified: &mut Vec<DigivolutionData>,
    draws: &Vec<Vec<u64>>,
)
    requires
        forall|r: int| 0 <= r < old(modified).len() ==> nonzero_count(#[trigger] old(modified)@[r].tech@)
            <= learnable_techs(originals@).len(),
        draws.len() == old(modified).len(),
        forall|r: int| 0 <= r < old(modified).len() ==> (#[trigger] draws@[r])@.len() == nonzero_count(old(modified)@[r].tech@),
    ensures
        final(modified).len() == old(modified).len(),
        forall|r: int| 0 <= r < old(modified).len() ==> moves_relearned(
            #[trigger] old(modified)@[r],
            final(modified)@[r],
            learnable_techs(originals@),
        ),
        exists|pool: Seq<u16>|
            #![trigger strictly_increasing(pool)]
            {
                &&& strictly_increasing(pool)
                &&& pool.to_set() == learnable_techs(originals@)
                &&& forall|r: int| 0 <= r < old(modified).len() ==> techs_drawn(
                    #[trigger] old(modified)@[r],
                    final(modified)@[r],
                    pool,
                    draws@[r]@,
                )
            },
{
    let learnable = learnable_list(originals);
    let ghost lset = learnable_techs(originals@);
    let mut r: usize = 0;
    while r < modified.len()
        invariant
            r <= modified.len() == old(modified).len(),
            lset == learnable_techs(originals@),
            learnable@.no_duplicates(),
            learnable@.to_set() == lset,
            learnable.len() == lset.len(),
            forall|q: int| 0 <= q < old(modified).len() ==> nonzero_count(#[trigger] old(modified)@[q].tech@)
                <= lset.len(),
            forall|q: int| 0 <= q < r ==> moves_relearned(#[trigger] old(modified)@[q], modified@[q], lset),
            forall|q: int| r <= q < modified.len() ==> #[trigger] modified@[q] == old(modified)@[q],
            draws.len() == old(modified).len(),
            forall|q: int| 0 <= q < old(modified).len() ==> (#[trigger] draws@[q])@.len() == nonzero_count(old(modified)@[q].tech@),
            forall|q: int| 0 <= q < r ==> techs_drawn(#[trigger] old(modified)@[q], modified@[q], learnable@, draws@[q]@),
        decreases modified.len() - r,
    {
        let ghost before = modified@;
        let ghost od = old(modified)@[r as int];
        let mut pool = copy_vec(&learnable);
        let len = modified[r].tech.len();
        let ghost ds = draws@[r as int]@;
        assert(ds.take(0) =~= Seq::<u64>::empty());
        proof {
            reveal(techs_drawn_upto);
        }
        let mut c: usize = 0;
        let mut k: usize = 0;
        while k < len
            invariant
                r < modified.len() == before.len(),
                od == before[r as int],
                len == od.tech@.len(),
                k <= len,
                nonzero_count(od.tech@) <= lset.len(),
                lset == learnable_techs(originals@),
                learnable@.to_set() == lset,
                pool@.no_duplicates(),
                pool.len() == lset.len() - nonzero_count(od.tech@.take(k as int)),
                forall|y: u16| #[trigger] pool@.contains(y) ==> lset.contains(y),
                same_but_techs(od, modified@[r as int]),
                modified@[r as int].tech@.len() == len,
                forall|j: int| k <= j < len ==> #[trigger] modified@[r as int].tech@[j] == od.tech@[j],
                forall|j: int| 0 <= j < k ==> (#[trigger] od.tech@[j] == 0 <==> modified@[r as int].tech@[j] == 0),
                forall|j: int| 0 <= j < k && od.tech@[j] != 0 ==> lset.contains(#[trigger] modified@[r as int].tech@[j]),
                forall|j: int| 0 <= j < k && od.tech@[j] != 0 ==> !pool@.contains(#[trigger] modified@[r as int].tech@[j]),
                forall|k1: int, k2: int|
                    0 <= k1 < k2 < k && od.tech@[k1] != 0 && od.tech@[k2] != 0
                        ==> #[trigger] modified@[r as int].tech@[k1] != #[trigger] modified@[r as int].tech@[k2],
                forall|q: int| 0 <= q < before.len() && q != r ==> #[trigger] modified@[q] == before[q],
                r < draws.len(),
                ds == draws@[r as int]@,
                ds.len() == nonzero_count(od.tech@),
                c == nonzero_count(od.tech@.take(k as int)),
                c <= ds.len(),
                pool@ == picked(learnable@, ds.take(c as int)).1,
                picked(learnable@, ds.take(c as int)).0.len() == c,
                techs_drawn_upto(od, modified@[r as int].tech@, learnable@, ds, k as int),
            decreases len - k,
        {
            proof {
                lemma_nonzero_count_take(od.tech@, k as int);
                lemma_nonzero_count_take_le(od.tech@, k as int + 1);
            }
            if modified[r].tech[k] == 0 {
                proof {
                    lemma_techs_skip(od, modified@[r as int].tech@, learnable@, ds, k as int);
                }
            }
            if modified[r].tech[k] != 0 {
                let ghost t_before = modified@[r as int].tech@;
                proof {
                    lemma_nonzero_count_take_le(od.tech@, k as int + 1);
                }
                assert(c < ds.len());
                assert(draws@[r as int].len() == ds.len());
                let d = draws[r][c];
                let t = take_drawn(&mut pool, d);
                proof {
                    lemma_picked_push(learnable@, ds.take(c as int), d);
                    assert(ds.take(c + 1) =~= ds.take(c as int).push(d));
                }
                c = c + 1;
                proof {
                    assert(learnable@.to_set().contains(t) || !pool@.contains(t));
                    assert(lset.contains(t));
                    assert(!all_techs(originals@).to_set().remove(0).contains(0));
                    assert(t != 0);
                }
                modified[r].tech.set(k, t);
                proof {
                    lemma_techs_step(od, t_before, modified@[r as int].tech@, learnable@, ds, k as int);
                    assert forall|j: int| 0 <= j < k + 1 && od.tech@[j] != 0 implies !pool@.contains(#[trigger] modified@[r as int].tech@[j]) by {
                        if j < k {
                            assert(modified@[r as int].tech@[j] == t_before[j]);
                        }
                    }
                    assert forall|k1: int, k2: int|
                        0 <= k1 < k2 < k + 1 && od.tech@[k1] != 0 && od.tech@[k2] != 0
                            implies #[trigger] modified@[r as int].tech@[k1] != #[trigger] modified@[r as int].tech@[k2] by {
                        assert(modified@[r as int].tech@[k1] == t_before[k1]);
                        if k2 == k {
                            assert(!pool@.contains(t_before[k1]));
                        } else {
                            assert(modified@[r as int].tech@[k2] == t_before[k2]);
                        }
                    }
                }
            }
            k += 1;
        }
        proof {
            assert(od.tech@.take(len as int) =~= od.tech@);
            lemma_techs_done(od, modified@[r as int], learnable@, ds);
            assert forall|q: int| 0 <= q < r + 1 implies techs_drawn(#[trigger] old(modified)@[q], modified@[q], learnable@, draws@[q]@) by {
                if q < r {
                    assert(modified@[q] == before[q]);
                }
            }
            assert forall|q: int| 0 <= q < r + 1 implies moves_relearned(#[trigger] old(modified)@[q], modified@[q], lset) by {
                if q < r {
                    assert(modified@[q] == before[q]);
                }
            }
        }
        r += 1;
    }
    assert(strictly_increasing(learnable@));
}

/// The techs of a record were relearned with the given draws, one for
/// each tech slot that is not empty, in order: slot `k` takes the next
/// tech that its draw takes from what is left of the pool (`picked`).
pub open spec fn techs_drawn(old_d: DigivolutionData, new_d: DigivolutionData, pool: Seq<u16>, ds: Seq<u64>) -> bool {
    forall|k: int|
        0 <= k < old_d.tech@.len() && old_d.tech@[k] != 0 ==> #[trigger] new_d.tech@[k] == picked(
            pool,
            ds.take(nonzero_count(old_d.tech@.take(k)) as int + 1),
        ).0[nonzero_count(old_d.tech@.take(k)) as int]
}

/// The tech slots before `k` were relearned with the draws, as
/// `techs_drawn` says of them.
#[verifier::opaque]
pub open spec fn techs_drawn_upto(od: DigivolutionData, new_tech: Seq<u16>, pool: Seq<u16>, ds: Seq<u64>, k: int) -> bool {
    forall|j: int|
        0 <= j < k && od.tech@[j] != 0 ==> #[trigger] new_tech[j] == picked(
            pool,
            ds.take(nonzero_count(od.tech@.take(j)) as int + 1),
        ).0[nonzero_count(od.tech@.take(j)) as int]
}

/// An empty slot leaves what the slots before it were given.
proof fn lemma_techs_skip(od: DigivolutionData, t: Seq<u16>, pool: Seq<u16>, ds: Seq<u64>, k: int)
    requires
        0 <= k < od.tech@.len(),
        od.tech@[k] == 0,
        techs_drawn_upto(od, t, pool, ds, k),
    ensures
        techs_drawn_upto(od, t, pool, ds, k + 1),
{
    reveal(techs_drawn_upto);
}

/// Giving slot `k` the next drawn tech keeps what the slots before it
/// were given.
proof fn lemma_techs_step(od: DigivolutionData, before: Seq<u16>, after: Seq<u16>, pool: Seq<u16>, ds: Seq<u64>, k: int)
    requires
        0 <= k < od.tech@.len() == before.len(),
        od.tech@[k] != 0,
        nonzero_count(od.tech@.take(k)) < ds.len(),
        after == before.update(
            k,
            picked(pool, ds.take(nonzero_count(od.tech@.take(k)) as int + 1)).0[nonzero_count(od.tech@.take(k)) as int],
        ),
        techs_drawn_upto(od, before, pool, ds, k),
    ensures
        techs_drawn_upto(od, after, pool, ds, k + 1),
{
    reveal(techs_drawn_upto);
    assert forall|j: int| 0 <= j < k + 1 && od.tech@[j] != 0 implies #[trigger] after[j] == picked(
        pool,
        ds.take(nonzero_count(od.tech@.take(j)) as int + 1),
    ).0[nonzero_count(od.tech@.take(j)) as int] by {
        if j < k {
            assert(after[j] == before[j]);
        }
    }
}

/// All slots done: the techs are as `techs_drawn` says.
proof fn lemma_techs_done(od: DigivolutionData, nd: DigivolutionData, pool: Seq<u16>, ds: Seq<u64>)
    requires
        techs_drawn_upto(od, nd.tech@, pool, ds, od.tech@.len() as int),
    ensures
        techs_drawn(od, nd, pool, ds),
{
    reveal(techs_drawn_upto);
}

/// Gives every form new techs, as `learned_moves_with_draws` does with one
/// `next_u64` draw for each tech slot that is not empty, in order.
pub fn learned_moves(originals: &Vec<DigivolutionData>, modified: &mut Vec<DigivolutionData>, rng: &mut Xoshiro256StarStar)
    requires
        forall|r: int| 0 <= r < old(modified).len() ==> nonzero_count(#[trigger] old(modified)@[r].tech@)
            <= learnable_techs(originals@).len(),
    ensures
        final(modified).len() == old(modified).len(),
        forall|r: int| 0 <= r < old(modified).len() ==> moves_relearned(
            #[trigger] old(modified)@[r],
            final(modified)@[r],
            learnable_techs(originals@),
        ),
        exists|pool: Seq<u16>, draws: Seq<Seq<u64>>|
            #![trigger strictly_increasing(pool), draws.len()]
            {
                &&& strictly_increasing(pool)
                &&& pool.to_set() == learnable_techs(originals@)
                &&& draws.len() == old(modified).len()
                &&& forall|r: int| 0 <= r < old(modified).len() ==> techs_drawn(
                    #[trigger] old(modified)@[r],
                    final(modified)@[r],
                    pool,
                    draws[r],
                )
            },
{
    let mut draws: Vec<Vec<u64>> = Vec::new();
    let mut r: usize = 0;
    while r < modified.len()
        invariant
            r <= modified.len(),
            draws.len() == r,
            forall|q: int| 0 <= q < r ==> (#[trigger] draws@[q])@.len() == nonzero_count(modified@[q].tech@),
        decreases modified.len() - r,
    {
        let mut row: Vec<u64> = Vec::new();
        let mut k: usize = 0;
        while k < modified[r].tech.len()
            invariant
                r < modified.len(),
                k <= modified@[r as int].tech.len(),
                row.len() == nonzero_count(modified@[r as int].tech@.take(k as int)),
            decreases modified@[r as int].tech.len() - k,
        {
            proof {
                lemma_nonzero_count_take(modified@[r as int].tech@, k as int);
            }
            if modified[r].tech[k] != 0 {
                row.push(next_u64(rng));
            }
            k += 1;
        }
        proof {
            assert(modified@[r as int].tech@.take(k as int) =~= modified@[r as int].tech@);
        }
        draws.push(row);
        r += 1;
    }
    learned_moves_with_draws(originals, modified, &draws);
    proof {
        let dv = draws@.map_values(|v: Vec<u64>| v@);
        assert forall|q: int| 0 <= q < dv.len() implies #[trigger] dv[q] == draws@[q]@ by {}
    }
}


/// The signature techs of the records.
pub open spec fn ori_techs(ds: Seq<DigivolutionData>) -> Seq<u16> {
    ds.map_values(|d: DigivolutionData| d.ori_tech)
}

/// The records differ at most in their signature tech.
pub open spec fn same_but_signature(a: DigivolutionData, b: DigivolutionData) -> bool {
    &&& same_untouched(a, b)
    &&& a.digimon_id == b.digimon_id
    &&& forall|st: Stat| stat_value(a, st) == stat_value(b, st)
    &&& a.tech == b.tech
    &&& a.stat_offsets == b.stat_offsets
    &&& a.res_offsets == b.res_offsets
    &&& forall|m: Modifier| modifier_value(a, m) == modifier_value(b, m)
}

/// What `signatures` does to one list of records: the first `count` get
/// different signature techs out of `techs`, the others stay as they are.
pub open spec fn signatures_dealt(
    old_ds: Seq<DigivolutionData>,
    new_ds: Seq<DigivolutionData>,
    techs: Set<u16>,
    count: int,
) -> bool {
    &&& new_ds.len() == old_ds.len()
    &&& forall|i: int| 0 <= i < count ==> same_but_signature(#[trigger] old_ds[i], new_ds[i])
    &&& forall|i: int| 0 <= i < count ==> techs.contains(#[trigger] new_ds[i].ori_tech)
    &&& forall|i: int, j: int| 0 <= i < j < count ==> #[trigger] new_ds[i].ori_tech != #[trigger] new_ds[j].ori_tech
    &&& forall|i: int| count <= i < old_ds.len() ==> #[trigger] new_ds[i] == old_ds[i]
}

/// The distinct signature techs of the records, in increasing order.
fn signature_list(ds: &Vec<DigivolutionData>) -> (list: Vec<u16>)
    ensures
        strictly_increasing(list@),
        list@.no_duplicates(),
        list@.to_set() == ori_techs(ds@).to_set(),
        list.len() == ori_techs(ds@).to_set().len(),
{
    let mut techs: Vec<u16> = Vec::new();
    let mut i: usize = 0;
    while i < ds.len()
        invariant
            i <= ds.len(),
            techs@ == ori_techs(ds@).take(i as int),
        decreases ds.len() - i,
    {
        techs.push(ds[i].ori_tech);
        i += 1;
        assert(techs@ =~= ori_techs(ds@).take(i as int));
    }
    assert(ori_techs(ds@).take(i as int) =~= ori_techs(ds@));
    sorted_unique(&techs)
}

/// Deals the shuffled techs out to the first `count` records.
fn deal_signatures(list: &Vec<u16>, ds: &mut Vec<DigivolutionData>, count: usize)
    requires
        list@.no_duplicates(),
        list.len() >= count,
        old(ds).len() >= count,
    ensures
        signatures_dealt(old(ds)@, final(ds)@, list@.to_set(), count as int),
        forall|k: int| 0 <= k < count ==> #[trigger] final(ds)@[k].ori_tech == list@[k],
{
    let mut i: usize = 0;
    while i < count
        invariant
            list@.no_duplicates(),
            list.len() >= count,
            i <= count <= ds.len() == old(ds).len(),
            forall|k: int| 0 <= k < i ==> same_but_signature(#[trigger] old(ds)@[k], ds@[k]),
            forall|k: int| 0 <= k < i ==> #[trigger] ds@[k].ori_tech == list@[k],
            forall|k: int| i <= k < ds.len() ==> #[trigger] ds@[k] == old(ds)@[k],
        decreases count - i,
    {
        let ghost before = ds@;
        ds[i].ori_tech = list[i];
        proof {
            assert forall|k: int| 0 <= k < i + 1 implies same_but_signature(#[trigger] old(ds)@[k], ds@[k]) by {
                if k < i {
                    assert(ds@[k] == before[k]);
                }
            }
            assert forall|k: int| 0 <= k < i + 1 implies #[trigger] ds@[k].ori_tech == list@[k] by {
                if k < i {
                    assert(ds@[k] == before[k]);
                }
            }
        }
        i += 1;
    }
    proof {
        assert forall|k: int| 0 <= k < count implies list@.to_set().contains(#[trigger] ds@[k].ori_tech) by {
            assert(list@.contains(list@[k]));
        }
    }
}

/// The first `count` records got, in order, the different techs of
/// `techs` in increasing order shuffled with `draws` (`shuffled`).
pub open spec fn signatures_drawn(new_ds: Seq<DigivolutionData>, techs: Set<u16>, count: int, draws: Seq<usize>) -> bool {
    exists|pool: Seq<u16>|
        #![trigger shuffled(pool, draws)]
        {
            &&& strictly_increasing(pool)
            &&& pool.to_set() == techs
            &&& forall|i: int| 0 <= i < count ==> #[trigger] new_ds[i].ori_tech == shuffled(pool, draws)[i]
        }
}

/// Deals the signature techs with the given shuffles: the different rookie
/// signature techs, in increasing order, shuffled with `rookie_draws`, go
/// to the first eight rookies in turn, and the form signature techs,
/// shuffled with `digivolution_draws`, to the first 44 forms.
pub fn signatures_with_draws(
    rookie_original: &Vec<DigivolutionData>,
    rookie_modified: &mut Vec<DigivolutionData>,
    digivolution_original: &Vec<DigivolutionData>,
    digivolution_modified: &mut Vec<DigivolutionData>,
    rookie_draws: &Vec<usize>,
    digivolution_draws: &Vec<usize>,
)
    requires
        ori_techs(rookie_original@).to_set().len() >= crate::consts::ROOKIE_COUNT,
        old(rookie_modified).len() >= crate::consts::ROOKIE_COUNT,
        ori_techs(digivolution_original@).to_set().len() >= crate::consts::DIGIVOLUTION_COUNT,
        old(digivolution_modified).len() >= crate::consts::DIGIVOLUTION_COUNT,
    ensures
        signatures_dealt(
            old(rookie_modified)@,
            final(rookie_modified)@,
            ori_techs(rookie_original@).to_set(),
            crate::consts::ROOKIE_COUNT as int,
        ),
        signatures_dealt(
            old(digivolution_modified)@,
            final(digivolution_modified)@,
            ori_techs(digivolution_original@).to_set(),
            crate::consts::DIGIVOLUTION_COUNT as int,
        ),
        signatures_drawn(
            final(rookie_modified)@,
            ori_techs(rookie_original@).to_set(),
            crate::consts::ROOKIE_COUNT as int,
            rookie_draws@,
        ),
        signatures_drawn(
            final(digivolution_modified)@,
            ori_techs(digivolution_original@).to_set(),
            crate::consts::DIGIVOLUTION_COUNT as int,
            digivolution_draws@,
        ),
{
    let mut rookie_list = signature_list(rookie_original);
    let mut list = signature_list(digivolution_original);
    let ghost r0 = rookie_list@;
    let ghost d0 = list@;
    shuffle_with_draws(&mut rookie_list, rookie_draws);
    shuffle_with_draws(&mut list, digivolution_draws);
    proof {
        lemma_permutation_no_duplicates(r0, rookie_list@);
        lemma_permutation_no_duplicates(d0, list@);
        lemma_same_multiset_same_set(r0, rookie_list@);
        lemma_same_multiset_same_set(d0, list@);
    }
    deal_signatures(&rookie_list, rookie_modified, crate::consts::ROOKIE_COUNT);
    deal_signatures(&list, digivolution_modified, crate::consts::DIGIVOLUTION_COUNT);
    proof {
        assert(forall|i: int| 0 <= i < crate::consts::ROOKIE_COUNT ==> #[trigger] rookie_modified@[i].ori_tech == shuffled(r0, rookie_draws@)[i]);
        assert(forall|i: int| 0 <= i < crate::consts::DIGIVOLUTION_COUNT ==> #[trigger] digivolution_modified@[i].ori_tech == shuffled(d0, digivolution_draws@)[i]);
    }
}

/// Shuffles the signature techs: the first eight rookies get different
/// rookie signature techs and the first 44 forms different form signature
/// techs. The shuffles draw from the generator, the rookies' first, and
/// the techs are dealt as `signatures_with_draws` deals them with those
/// draws.
pub fn signatures(
    rookie_original: &Vec<DigivolutionData>,
    rookie_modified: &mut Vec<DigivolutionData>,
    digivolution_original: &Vec<DigivolutionData>,
    digivolution_modified: &mut Vec<DigivolutionData>,
    shuffles: u8,
    rng: &mut Xoshiro256StarStar,
)
    requires
        ori_techs(rookie_original@).to_set().len() >= crate::consts::ROOKIE_COUNT,
        old(rookie_modified).len() >= crate::consts::ROOKIE_COUNT,
        ori_techs(digivolution_original@).to_set().len() >= crate::consts::DIGIVOLUTION_COUNT,
        old(digivolution_modified).len() >= crate::consts::DIGIVOLUTION_COUNT,
    ensures
        signatures_dealt(
            old(rookie_modified)@,
            final(rookie_modified)@,
            ori_techs(rookie_original@).to_set(),
            crate::consts::ROOKIE_COUNT as int,
        ),
        signatures_dealt(
            old(digivolution_modified)@,
            final(digivolution_modified)@,
            ori_techs(digivolution_original@).to_set(),
            crate::consts::DIGIVOLUTION_COUNT as int,
        ),
        exists|rd: Seq<usize>, dd: Seq<usize>|
            #![trigger signatures_drawn(
                final(rookie_modified)@,
                ori_techs(rookie_original@).to_set(),
                crate::consts::ROOKIE_COUNT as int,
                rd,
            ), signatures_drawn(
                final(digivolution_modified)@,
                ori_techs(digivolution_original@).to_set(),
                crate::consts::DIGIVOLUTION_COUNT as int,
                dd,
            )]
            {
                &&& rd.len() == draw_count(ori_techs(rookie_original@).to_set().len() as int, shuffles as int)
                &&& dd.len() == draw_count(ori_techs(digivolution_original@).to_set().len() as int, shuffles as int)
                &&& signatures_drawn(
                    final(rookie_modified)@,
                    ori_techs(rookie_original@).to_set(),
                    crate::consts::ROOKIE_COUNT as int,
                    rd,
                )
                &&& signatures_drawn(
                    final(digivolution_modified)@,
                    ori_techs(digivolution_original@).to_set(),
                    crate::consts::DIGIVOLUTION_COUNT as int,
                    dd,
                )
            },
{
    let rookie_len = signature_count(rookie_original);
    let dv_len = signature_count(digivolution_original);
    let rookie_draws = shuffle_draws(rookie_len, shuffles, rng);
    let digivolution_draws = shuffle_draws(dv_len, shuffles, rng);
    signatures_with_draws(
        rookie_original,
        rookie_modified,
        digivolution_original,
        digivolution_modified,
        &rookie_draws,
        &digivolution_draws,
    );
}

/// How many different signature techs the records have.
fn signature_count(ds: &Vec<DigivolutionData>) -> (n: usize)
    ensures
        n == ori_techs(ds@).to_set().len(),
{
    signature_list(ds).len()
}

/// Sequences with the same multiset have the same set.
proof fn lemma_same_multiset_same_set<T>(a: Seq<T>, b: Seq<T>)
    requires
        a.to_multiset() == b.to_multiset(),
    ensures
        a.to_set() == b.to_set(),
{
    assert forall|x: T| a.to_set().contains(x) <==> b.to_set().contains(x) by {
        assert(a.contains(x) <==> a.to_multiset().count(x) > 0);
        assert(b.contains(x) <==> b.to_multiset().count(x) > 0);
    }
    assert(a.to_set() =~= b.to_set());
}


/// The first position whose condition has the given index, or -1.
pub open spec fn first_with_index(s: Seq<DigivolutionCondition>, idx: u32) -> int
    decreases s.len(),
{
    if s.len() == 0 {
        -1
    } else {
        let p = first_with_index(s.drop_last(), idx);
        if p >= 0 {
            p
        } else if s.last().index == idx {
            s.len() - 1
        } else {
            -1
        }
    }
}

/// The first match is the only one before it.
proof fn lemma_first_with_index(s: Seq<DigivolutionCondition>, idx: u32, p: int)
    requires
        0 <= p < s.len(),
        s[p].index == idx,
        forall|q: int| 0 <= q < p ==> s[q].index != idx,
    ensures
        first_with_index(s, idx) == p,
    decreases s.len(),
{
    if p < s.len() - 1 {
        lemma_first_with_index(s.drop_last(), idx, p);
    } else {
        lemma_no_index(s.drop_last(), idx);
    }
}

/// Without a match there is no first match.
proof fn lemma_no_index(s: Seq<DigivolutionCondition>, idx: u32)
    requires
        forall|q: int| 0 <= q < s.len() ==> s[q].index != idx,
    ensures
        first_with_index(s, idx) == -1,
    decreases s.len(),
{
    if s.len() > 0 {
        lemma_no_index(s.drop_last(), idx);
    }
}

/// A first match lies inside the sequence.
proof fn lemma_first_with_index_bound(s: Seq<DigivolutionCondition>, idx: u32)
    ensures
        -1 <= first_with_index(s, idx) < s.len(),
    decreases s.len(),
{
    if s.len() > 0 {
        lemma_first_with_index_bound(s.drop_last(), idx);
    }
}

/// Where the condition with the given index is, if anywhere.
fn position_of_index(conds: &Vec<DigivolutionCondition>, idx: u32) -> (pos: Option<usize>)
    ensures
        pos matches Some(p) ==> p == first_with_index(conds@, idx) && p < conds.len(),
        pos is None ==> first_with_index(conds@, idx) == -1,
{
    let mut i: usize = 0;
    while i < conds.len()
        invariant
            i <= conds.len(),
            forall|q: int| 0 <= q < i ==> conds@[q].index != idx,
        decreases conds.len() - i,
    {
        if conds[i].index == idx {
            proof {
                lemma_first_with_index(conds@, idx, i as int);
            }
            return Some(i);
        }
        i += 1;
    }
    proof {
        lemma_no_index(conds@, idx);
    }
    None
}

/// The indices of the conditions.
pub open spec fn cond_indices(s: Seq<DigivolutionCondition>) -> Seq<u32> {
    s.map_values(|c: DigivolutionCondition| c.index)
}

/// The conditions differ at most in their own index.
pub open spec fn same_but_index(a: DigivolutionCondition, b: DigivolutionCondition) -> bool {
    &&& a.dv_index_1 == b.dv_index_1
    &&& a.rq_level_1 == b.rq_level_1
    &&& a.dv_index_2 == b.dv_index_2
    &&& a.rq_level_2 == b.rq_level_2
    &&& a.rq_type == b.rq_type
    &&& a.rq == b.rq
}

/// A required form index, carried over to the renumbered forms: the form
/// that held it in the original conditions now has the index that the
/// condition at its position was given.
pub open spec fn remapped(original: Seq<DigivolutionCondition>, renumbered: Seq<DigivolutionCondition>, dv: u16) -> u16 {
    if dv == 0 {
        0
    } else {
        renumbered[first_with_index(original, dv as u32)].index as u16
    }
}

/// Every required form index of the conditions is found in the original
/// conditions.
pub open spec fn requirements_found(original: Seq<DigivolutionCondition>, conds: Seq<DigivolutionCondition>) -> bool {
    forall|k: int| 0 <= k < conds.len() ==> {
        &&& (#[trigger] conds[k]).dv_index_1 > 0 ==> first_with_index(original, conds[k].dv_index_1 as u32) >= 0
        &&& conds[k].dv_index_2 > 0 ==> first_with_index(original, conds[k].dv_index_2 as u32) >= 0
    }
}

/// What the renumbering of the requirements does to one rookie's
/// conditions, once the indices are shuffled.
pub open spec fn requirements_remapped(
    original: Seq<DigivolutionCondition>,
    shuffled: Seq<DigivolutionCondition>,
    result: Seq<DigivolutionCondition>,
) -> bool {
    &&& result.len() == shuffled.len()
    &&& forall|k: int| 0 <= k < shuffled.len() ==> {
        &&& (#[trigger] result[k]).index == shuffled[k].index
        &&& result[k].rq_level_1 == shuffled[k].rq_level_1
        &&& result[k].rq_level_2 == shuffled[k].rq_level_2
        &&& result[k].rq_type == shuffled[k].rq_type
        &&& result[k].rq == shuffled[k].rq
        &&& result[k].dv_index_1 == remapped(original, shuffled, shuffled[k].dv_index_1)
        &&& result[k].dv_index_2 == remapped(original, shuffled, shuffled[k].dv_index_2)
    }
}

/// Points every requirement at the form's new index.
fn remap_requirements(original: &Vec<DigivolutionCondition>, conds: &mut Vec<DigivolutionCondition>)
    requires
        old(conds).len() == original.len(),
        requirements_found(original@, old(conds)@),
    ensures
        requirements_remapped(original@, old(conds)@, final(conds)@),
{
    let ghost shuffled = conds@;
    let mut k: usize = 0;
    while k < conds.len()
        invariant
            shuffled.len() == conds.len() == original.len(),
            requirements_found(original@, shuffled),
            k <= conds.len(),
            forall|j: int| 0 <= j < conds.len() ==> #[trigger] conds@[j].index == shuffled[j].index,
            forall|j: int| k <= j < conds.len() ==> #[trigger] conds@[j] == shuffled[j],
            forall|j: int| 0 <= j < k ==> {
                &&& (#[trigger] conds@[j]).rq_level_1 == shuffled[j].rq_level_1
                &&& conds@[j].rq_level_2 == shuffled[j].rq_level_2
                &&& conds@[j].rq_type == shuffled[j].rq_type
                &&& conds@[j].rq == shuffled[j].rq
                &&& conds@[j].dv_index_1 == remapped(original@, shuffled, shuffled[j].dv_index_1)
                &&& conds@[j].dv_index_2 == remapped(original@, shuffled, shuffled[j].dv_index_2)
            },
        decreases conds.len() - k,
    {
        let ghost before = conds@;
        let mut c = conds[k];
        if c.dv_index_1 > 0 {
            match position_of_index(original, c.dv_index_1 as u32) {
                Some(p) => {
                    c.dv_index_1 = conds[p].index as u16;
                },
                None => {
                    assert(false);
                },
            }
        }
        if c.dv_index_2 > 0 {
            match position_of_index(original, c.dv_index_2 as u32) {
                Some(p) => {
                    c.dv_index_2 = conds[p].index as u16;
                },
                None => {
                    assert(false);
                },
            }
        }
        conds.set(k, c);
        proof {
            assert forall|j: int| 0 <= j < k + 1 implies {
                &&& (#[trigger] conds@[j]).rq_level_1 == shuffled[j].rq_level_1
                &&& conds@[j].rq_level_2 == shuffled[j].rq_level_2
                &&& conds@[j].rq_type == shuffled[j].rq_type
                &&& conds@[j].rq == shuffled[j].rq
                &&& conds@[j].dv_index_1 == remapped(original@, shuffled, shuffled[j].dv_index_1)
                &&& conds@[j].dv_index_2 == remapped(original@, shuffled, shuffled[j].dv_index_2)
            } by {
                if j < k {
                    assert(conds@[j] == before[j]);
                }
            }
        }
        k += 1;
    }
}

/// Shuffles the indices of the conditions among them, with the same draws
/// as `shuffle`, leaving everything else in place.
fn shuffle_indices(conds: &mut Vec<DigivolutionCondition>, shuffles: u8, rng: &mut Xoshiro256StarStar)
    ensures
        final(conds).len() == old(conds).len(),
        cond_indices(final(conds)@).to_multiset() == cond_indices(old(conds)@).to_multiset(),
        forall|k: int| 0 <= k < old(conds).len() ==> same_but_index(#[trigger] old(conds)@[k], final(conds)@[k]),
        shuffle_outcome(cond_indices(old(conds)@), cond_indices(final(conds)@), shuffles),
{
    let mut indices: Vec<u32> = Vec::new();
    let mut k: usize = 0;
    while k < conds.len()
        invariant
            k <= conds.len(),
            indices@ == cond_indices(conds@).take(k as int),
        decreases conds.len() - k,
    {
        indices.push(conds[k].index);
        k += 1;
        assert(indices@ =~= cond_indices(conds@).take(k as int));
    }
    assert(cond_indices(conds@).take(k as int) =~= cond_indices(conds@));
    shuffle(&mut indices, shuffles, rng);
    let mut j: usize = 0;
    while j < conds.len()
        invariant
            j <= conds.len() == old(conds).len() == indices.len(),
            indices@.to_multiset() == cond_indices(old(conds)@).to_multiset(),
            forall|q: int| 0 <= q < j ==> #[trigger] conds@[q].index == indices@[q],
            forall|q: int| 0 <= q < conds.len() ==> same_but_index(#[trigger] old(conds)@[q], conds@[q]),
        decreases conds.len() - j,
    {
        conds[j].index = indices[j];
        j += 1;
    }
    assert(cond_indices(conds@) =~= indices@);
}

/// What `dv_cond_unlimited` does to the conditions of one rookie.
pub open spec fn conditions_shuffled(
    original: Seq<DigivolutionCondition>,
    old_conds: Seq<DigivolutionCondition>,
    new_conds: Seq<DigivolutionCondition>,
) -> bool {
    exists|shuffled: Seq<DigivolutionCondition>|
        {
            &&& shuffled.len() == old_conds.len()
            &&& cond_indices(shuffled).to_multiset() == cond_indices(old_conds).to_multiset()
            &&& forall|k: int| 0 <= k < old_conds.len() ==> same_but_index(#[trigger] old_conds[k], shuffled[k])
            &&& requirements_remapped(original, shuffled, new_conds)
        }
}

/// Shuffles the digivolutions of the eight rookies freely: each rookie's
/// form indices are permuted among its conditions, and every requirement
/// is renumbered to the index its form received.
pub fn dv_cond_unlimited(
    original: &Vec<DigivolutionConditions>,
    modified: &mut Vec<DigivolutionConditions>,
    shuffles: u8,
    rng: &mut Xoshiro256StarStar,
)
    requires
        original.len() >= crate::consts::ROOKIE_COUNT,
        old(modified).len() >= crate::consts::ROOKIE_COUNT,
        forall|d: int| 0 <= d < crate::consts::ROOKIE_COUNT ==> {
            &&& (#[trigger] old(modified)@[d]).conditions.len() == original@[d].conditions.len()
            &&& old(modified)@[d].conditions.len() == crate::consts::DIGIVOLUTION_COUNT
            &&& requirements_found(original@[d].conditions@, old(modified)@[d].conditions@)
        },
    ensures
        final(modified).len() == old(modified).len(),
        forall|d: int| 0 <= d < crate::consts::ROOKIE_COUNT ==> conditions_shuffled(
            original@[d].conditions@,
            (#[trigger] old(modified)@[d]).conditions@,
            final(modified)@[d].conditions@,
        ),
        forall|d: int| crate::consts::ROOKIE_COUNT <= d < old(modified).len() ==> #[trigger] final(modified)@[d] == old(modified)@[d],
{
    let mut d: usize = 0;
    while d < crate::consts::ROOKIE_COUNT
        invariant
            original.len() >= crate::consts::ROOKIE_COUNT,
            modified.len() == old(modified).len() >= crate::consts::ROOKIE_COUNT,
            d <= crate::consts::ROOKIE_COUNT,
            forall|q: int| d <= q < modified.len() ==> #[trigger] modified@[q] == old(modified)@[q],
            forall|q: int| 0 <= q < crate::consts::ROOKIE_COUNT ==> {
                &&& (#[trigger] old(modified)@[q]).conditions.len() == original@[q].conditions.len()
                &&& requirements_found(original@[q].conditions@, old(modified)@[q].conditions@)
            },
            forall|q: int| 0 <= q < d ==> conditions_shuffled(
                original@[q].conditions@,
                (#[trigger] old(modified)@[q]).conditions@,
                modified@[q].conditions@,
            ),
        decreases crate::consts::ROOKIE_COUNT - d,
    {
        let ghost before = modified@;
        let ghost od = modified@[d as int].conditions@;
        shuffle_indices(&mut modified[d].conditions, shuffles, rng);
        let ghost shuffled = modified@[d as int].conditions@;
        proof {
            assert forall|k: int| 0 <= k < shuffled.len() implies {
                &&& (#[trigger] shuffled[k]).dv_index_1 > 0 ==> first_with_index(original@[d as int].conditions@, shuffled[k].dv_index_1 as u32) >= 0
                &&& shuffled[k].dv_index_2 > 0 ==> first_with_index(original@[d as int].conditions@, shuffled[k].dv_index_2 as u32) >= 0
            } by {
                assert(same_but_index(od[k], shuffled[k]));
            }
        }
        remap_requirements(&original[d].conditions, &mut modified[d].conditions);
        proof {
            assert(conditions_shuffled(original@[d as int].conditions@, od, modified@[d as int].conditions@));
            assert forall|q: int| 0 <= q < d + 1 implies conditions_shuffled(
                original@[q].conditions@,
                (#[trigger] old(modified)@[q]).conditions@,
                modified@[q].conditions@,
            ) by {
                if q < d {
                    assert(modified@[q] == before[q]);
                }
            }
        }
        d += 1;
    }
}


/// The form that a condition stands for: forms are numbered from 9 on.
pub open spec fn form_of(forms: Seq<DigivolutionData>, c: DigivolutionCondition) -> DigivolutionData {
    forms[c.index - 9]
}

/// Every condition stands for one of the forms.
pub open spec fn indices_name_forms(conds: Seq<DigivolutionCondition>, forms: Seq<DigivolutionData>) -> bool {
    forall|k: int| 0 <= k < conds.len() ==> 9 <= (#[trigger] conds[k]).index < 9 + forms.len()
}

/// The first position whose form is the Digimon `id`, or -1.
pub open spec fn first_with_digimon(conds: Seq<DigivolutionCondition>, forms: Seq<DigivolutionData>, id: u16) -> int
    decreases conds.len(),
{
    if conds.len() == 0 {
        -1
    } else {
        let p = first_with_digimon(conds.drop_last(), forms, id);
        if p >= 0 {
            p
        } else if form_of(forms, conds.last()).digimon_id == id {
            conds.len() - 1
        } else {
            -1
        }
    }
}

/// The first match is the only one before it.
proof fn lemma_first_with_digimon(conds: Seq<DigivolutionCondition>, forms: Seq<DigivolutionData>, id: u16, p: int)
    requires
        0 <= p < conds.len(),
        form_of(forms, conds[p]).digimon_id == id,
        forall|q: int| 0 <= q < p ==> form_of(forms, conds[q]).digimon_id != id,
    ensures
        first_with_digimon(conds, forms, id) == p,
    decreases conds.len(),
{
    if p < conds.len() - 1 {
        lemma_first_with_digimon(conds.drop_last(), forms, id, p);
    } else {
        lemma_no_digimon(conds.drop_last(), forms, id);
    }
}

/// Without a match there is no first match.
proof fn lemma_no_digimon(conds: Seq<DigivolutionCondition>, forms: Seq<DigivolutionData>, id: u16)
    requires
        forall|q: int| 0 <= q < conds.len() ==> form_of(forms, conds[q]).digimon_id != id,
    ensures
        first_with_digimon(conds, forms, id) == -1,
    decreases conds.len(),
{
    if conds.len() > 0 {
        lemma_no_digimon(conds.drop_last(), forms, id);
    }
}

/// Where the condition of the given Digimon is, if anywhere.
fn position_of_digimon(conds: &Vec<DigivolutionCondition>, forms: &Vec<DigivolutionData>, id: u16) -> (pos: Option<usize>)
    requires
        indices_name_forms(conds@, forms@),
    ensures
        pos matches Some(p) ==> p == first_with_digimon(conds@, forms@, id) && p < conds.len(),
        pos is None ==> first_with_digimon(conds@, forms@, id) == -1,
{
    let mut i: usize = 0;
    while i < conds.len()
        invariant
            i <= conds.len(),
            indices_name_forms(conds@, forms@),
            forall|q: int| 0 <= q < i ==> form_of(forms@, conds@[q]).digimon_id != id,
        decreases conds.len() - i,
    {
        let f = conds[i].index as usize - 9;
        if forms[f].digimon_id == id {
            proof {
                lemma_first_with_digimon(conds@, forms@, id, i as int);
            }
            return Some(i);
        }
        i += 1;
    }
    proof {
        lemma_no_digimon(conds@, forms@, id);
    }
    None
}

/// The positions of the forms of a stage.
pub open spec fn stage_positions(conds: Seq<DigivolutionCondition>, forms: Seq<DigivolutionData>, ids: Seq<u16>) -> Seq<int> {
    ids.map_values(|id: u16| first_with_digimon(conds, forms, id))
}

/// Trades the indices of two conditions.
fn swap_indices(conds: &mut Vec<DigivolutionCondition>, a: usize, b: usize)
    requires
        a < old(conds).len(),
        b < old(conds).len(),
    ensures
        final(conds).len() == old(conds).len(),
        cond_indices(final(conds)@) == cond_indices(old(conds)@).update(a as int, old(conds)@[b as int].index).update(b as int, old(conds)@[a as int].index),
        forall|k: int| 0 <= k < old(conds).len() ==> same_but_index(#[trigger] old(conds)@[k], final(conds)@[k]),
{
    let ind = conds[b].index;
    let other = conds[a].index;
    conds[b].index = other;
    conds[a].index = ind;
    assert(cond_indices(conds@) =~= cond_indices(old(conds)@).update(a as int, old(conds)@[b as int].index).update(b as int, old(conds)@[a as int].index));
}

/// The two places of a stage's list that draw number `k` trades: the
/// passes run `i` over `0..n - 2` in turn, and the draw `d` picks
/// `j = i + d % (n - 1 - i)`, so the last place is never picked.
pub open spec fn stage_draw_swap(n: int, k: int, d: usize) -> (int, int) {
    let i = k % (n - 2);
    (i, i + (d as int) % (n - 1 - i))
}

/// The values at places `pos` of `s` shuffled among them with the given
/// draws, in order: draw `k` trades the values at `pos[i]` and `pos[j]`
/// of `stage_draw_swap`.
pub open spec fn stage_shuffled(s: Seq<u32>, pos: Seq<int>, draws: Seq<usize>) -> Seq<u32>
    decreases draws.len(),
{
    if draws.len() == 0 {
        s
    } else {
        let (i, j) = stage_draw_swap(pos.len() as int, draws.len() - 1, draws.last());
        swapped(stage_shuffled(s, pos, draws.drop_last()), pos[i], pos[j])
    }
}

/// Number of draws the shuffle of a stage of `n` forms takes over
/// `shuffles` passes: `n - 2` a pass, none below three forms.
pub open spec fn stage_draw_count(n: int, shuffles: int) -> int {
    if n >= 3 {
        shuffles * (n - 2)
    } else {
        0
    }
}

/// Shuffles the indices among the conditions of one stage's forms: each
/// pass trades, for `i` from 0, the index at the `i`-th form's condition
/// with one from `i` to the last but one (`stage_shuffled`).
fn shuffle_stage(
    original: &Vec<DigivolutionCondition>,
    conds: &mut Vec<DigivolutionCondition>,
    forms: &Vec<DigivolutionData>,
    ids: &Vec<u16>,
    shuffles: u8,
    rng: &mut Xoshiro256StarStar,
)
    requires
        ids.len() >= 2,
        indices_name_forms(original@, forms@),
        forall|k: int| 0 <= k < ids.len() ==> 0 <= first_with_digimon(original@, forms@, #[trigger] ids@[k]) < old(conds).len(),
    ensures
        final(conds).len() == old(conds).len(),
        cond_indices(final(conds)@).to_multiset() == cond_indices(old(conds)@).to_multiset(),
        forall|k: int| 0 <= k < old(conds).len() ==> same_but_index(#[trigger] old(conds)@[k], final(conds)@[k]),
        forall|k: int| 0 <= k < old(conds).len() && !stage_positions(original@, forms@, ids@).contains(k)
            ==> #[trigger] final(conds)@[k] == old(conds)@[k],
        exists|draws: Seq<usize>|
            #![trigger stage_shuffled(cond_indices(old(conds)@), stage_positions(original@, forms@, ids@), draws)]
            draws.len() == stage_draw_count(ids.len() as int, shuffles as int) && cond_indices(final(conds)@) == stage_shuffled(
                cond_indices(old(conds)@),
                stage_positions(original@, forms@, ids@),
                draws,
            ),
{
    let ghost positions = stage_positions(original@, forms@, ids@);
    let mut indices: Vec<usize> = Vec::new();
    let mut k: usize = 0;
    while k < ids.len()
        invariant
            k <= ids.len(),
            indices_name_forms(original@, forms@),
            forall|q: int| 0 <= q < ids.len() ==> 0 <= first_with_digimon(original@, forms@, #[trigger] ids@[q]) < conds.len(),
            indices.len() == k,
            forall|q: int| 0 <= q < k ==> #[trigger] indices@[q] == positions[q],
            positions == stage_positions(original@, forms@, ids@),
        decreases ids.len() - k,
    {
        match position_of_digimon(original, forms, ids[k]) {
            Some(p) => indices.push(p),
            None => {
                assert(false);
            },
        }
        k += 1;
    }
    let length = indices.len();
    let ghost mut draws: Seq<usize> = Seq::empty();
    let mut s: u8 = 0;
    while s < shuffles
        invariant
            length == indices.len() == ids.len() >= 2,
            s <= shuffles,
            draws.len() == s as int * (length as int - 2),
            cond_indices(conds@) == stage_shuffled(cond_indices(old(conds)@), positions, draws),
            forall|q: int| 0 <= q < length ==> #[trigger] indices@[q] == positions[q],
            forall|q: int| 0 <= q < length ==> #[trigger] indices@[q] < conds.len(),
            positions.len() == length,
            conds.len() == old(conds).len(),
            cond_indices(conds@).to_multiset() == cond_indices(old(conds)@).to_multiset(),
            forall|q: int| 0 <= q < old(conds).len() ==> same_but_index(#[trigger] old(conds)@[q], conds@[q]),
            forall|q: int| 0 <= q < old(conds).len() && !positions.contains(q) ==> #[trigger] conds@[q] == old(conds)@[q],
        decreases shuffles - s,
    {
        let mut i: usize = 0;
        while i < length - 2
            invariant
                length == indices.len() >= 2,
                i <= length - 2,
                draws.len() == s as int * (length as int - 2) + i,
                cond_indices(conds@) == stage_shuffled(cond_indices(old(conds)@), positions, draws),
                forall|q: int| 0 <= q < length ==> #[trigger] indices@[q] == positions[q],
                forall|q: int| 0 <= q < length ==> #[trigger] indices@[q] < conds.len(),
                positions.len() == length,
                conds.len() == old(conds).len(),
                cond_indices(conds@).to_multiset() == cond_indices(old(conds)@).to_multiset(),
                forall|q: int| 0 <= q < old(conds).len() ==> same_but_index(#[trigger] old(conds)@[q], conds@[q]),
                forall|q: int| 0 <= q < old(conds).len() && !positions.contains(q) ==> #[trigger] conds@[q] == old(conds)@[q],
            decreases length - 2 - i,
        {
            let uniform: usize = next_u64(rng) as usize;
            let j = i + uniform % (length - 1 - i);
            let ghost before = conds@;
            proof {
                let n = length as int - 2;
                assert(s as int * n == n * s as int) by (nonlinear_arith);
                vstd::arithmetic::div_mod::lemma_mod_multiples_vanish(s as int, i as int, n);
                vstd::arithmetic::div_mod::lemma_small_mod(i as nat, n as nat);
                let prev = draws;
                draws = draws.push(uniform);
                assert(draws.drop_last() =~= prev);
                assert(stage_draw_swap(length as int, draws.len() - 1, uniform) == (i as int, j as int));
                crate::util::lemma_swap_keeps_multiset(cond_indices(before), indices@[j as int] as int, indices@[i as int] as int);
            }
            swap_indices(conds, indices[j], indices[i]);
            proof {
                assert forall|q: int| 0 <= q < old(conds).len() && !positions.contains(q) implies #[trigger] conds@[q] == old(conds)@[q] by {
                    assert(positions[j as int] != q);
                    assert(positions[i as int] != q);
                    assert(cond_indices(conds@)[q] == cond_indices(before)[q]);
                    assert(same_but_index(before[q], conds@[q]));
                    assert(same_but_index(old(conds)@[q], before[q]));
                }
                let c = cond_indices(before);
                assert(cond_indices(conds@) =~= swapped(c, positions[i as int], positions[j as int]));
            }
            i += 1;
        }
        proof {
            assert((s + 1) as int * (length as int - 2) == s as int * (length as int - 2) + (length as int - 2))
                by (nonlinear_arith);
        }
        s += 1;
    }
    proof {
        assert(length == 2 ==> s as int * (length as int - 2) == 0) by (nonlinear_arith);
        assert(draws.len() == stage_draw_count(ids.len() as int, shuffles as int));
        assert(cond_indices(conds@) == stage_shuffled(cond_indices(old(conds)@), positions, draws));
    }
}


/// A copy of a constant list of Digimon ids.
fn id_list<const N: usize>(ids: &[u16; N]) -> (v: Vec<u16>)
    ensures
        v@ == ids@,
{
    let mut v: Vec<u16> = Vec::new();
    let mut i: usize = 0;
    while i < N
        invariant
            i <= N,
            v@ == ids@.take(i as int),
        decreases N - i,
    {
        v.push(ids[i]);
        i += 1;
        assert(v@ =~= ids@.take(i as int));
    }
    assert(ids@.take(N as int) =~= ids@);
    v
}

/// The Digimon of every stage, champions to ultras.
pub open spec fn stage_ids() -> Seq<Seq<u16>> {
    seq![
        crate::consts::CHAMPIONS@,
        crate::consts::ULTIMATES@,
        crate::consts::MEGAS@,
        crate::consts::MEGAPLUS@,
        crate::consts::ULTRAS@,
    ]
}

/// Position `k` is the condition of some staged form.
pub open spec fn staged(conds: Seq<DigivolutionCondition>, forms: Seq<DigivolutionData>, k: int) -> bool {
    exists|s: int| 0 <= s < 5 && #[trigger] stage_positions(conds, forms, stage_ids()[s]).contains(k)
}

/// Every staged Digimon has a condition among the rookie's conditions.
pub open spec fn stages_found(conds: Seq<DigivolutionCondition>, forms: Seq<DigivolutionData>, len: int) -> bool {
    forall|s: int, k: int| 0 <= s < 5 && 0 <= k < stage_ids()[s].len() ==>
        0 <= first_with_digimon(conds, forms, #[trigger] stage_ids()[s][k]) < len
}

/// What `dv_cond_limited` does to the conditions of one rookie.
pub open spec fn conditions_shuffled_in_stages(
    original: Seq<DigivolutionCondition>,
    forms: Seq<DigivolutionData>,
    old_conds: Seq<DigivolutionCondition>,
    new_conds: Seq<DigivolutionCondition>,
) -> bool {
    exists|shuffled: Seq<DigivolutionCondition>|
        {
            &&& shuffled.len() == old_conds.len()
            &&& cond_indices(shuffled).to_multiset() == cond_indices(old_conds).to_multiset()
            &&& forall|k: int| 0 <= k < old_conds.len() ==> same_but_index(#[trigger] old_conds[k], shuffled[k])
            &&& forall|k: int| 0 <= k < old_conds.len() && !staged(original, forms, k) ==> #[trigger] shuffled[k] == old_conds[k]
            &&& requirements_remapped(original, shuffled, new_conds)
        }
}

/// Shuffles the digivolutions of the eight rookies stage by stage: form
/// indices are only exchanged between forms of the same stage, and every
/// requirement is renumbered to the index its form received.
pub fn dv_cond_limited(
    original: &Vec<DigivolutionConditions>,
    forms: &Vec<DigivolutionData>,
    modified: &mut Vec<DigivolutionConditions>,
    shuffles: u8,
    rng: &mut Xoshiro256StarStar,
)
    requires
        original.len() >= crate::consts::ROOKIE_COUNT,
        old(modified).len() >= crate::consts::ROOKIE_COUNT,
        forall|d: int| 0 <= d < crate::consts::ROOKIE_COUNT ==> {
            &&& (#[trigger] old(modified)@[d]).conditions.len() == original@[d].conditions.len()
            &&& indices_name_forms(original@[d].conditions@, forms@)
            &&& stages_found(original@[d].conditions@, forms@, original@[d].conditions.len() as int)
            &&& requirements_found(original@[d].conditions@, old(modified)@[d].conditions@)
        },
    ensures
        final(modified).len() == old(modified).len(),
        forall|d: int| 0 <= d < crate::consts::ROOKIE_COUNT ==> conditions_shuffled_in_stages(
            original@[d].conditions@,
            forms@,
            (#[trigger] old(modified)@[d]).conditions@,
            final(modified)@[d].conditions@,
        ),
        forall|d: int| crate::consts::ROOKIE_COUNT <= d < old(modified).len() ==> #[trigger] final(modified)@[d] == old(modified)@[d],
{
    let stages: Vec<Vec<u16>> = vec![
        id_list(&crate::consts::CHAMPIONS),
        id_list(&crate::consts::ULTIMATES),
        id_list(&crate::consts::MEGAS),
        id_list(&crate::consts::MEGAPLUS),
        id_list(&crate::consts::ULTRAS),
    ];
    assert(stages@.map_values(|v: Vec<u16>| v@) =~= stage_ids());
    let mut d: usize = 0;
    while d < crate::consts::ROOKIE_COUNT
        invariant
            stages.len() == 5,
            forall|q: int| 0 <= q < 5 ==> (#[trigger] stages@[q])@ == stage_ids()[q],
            original.len() >= crate::consts::ROOKIE_COUNT,
            modified.len() == old(modified).len() >= crate::consts::ROOKIE_COUNT,
            d <= crate::consts::ROOKIE_COUNT,
            forall|q: int| d <= q < modified.len() ==> #[trigger] modified@[q] == old(modified)@[q],
            forall|q: int| 0 <= q < crate::consts::ROOKIE_COUNT ==> {
                &&& (#[trigger] old(modified)@[q]).conditions.len() == original@[q].conditions.len()
                &&& indices_name_forms(original@[q].conditions@, forms@)
                &&& stages_found(original@[q].conditions@, forms@, original@[q].conditions.len() as int)
                &&& requirements_found(original@[q].conditions@, old(modified)@[q].conditions@)
            },
            forall|q: int| 0 <= q < d ==> conditions_shuffled_in_stages(
                original@[q].conditions@,
                forms@,
                (#[trigger] old(modified)@[q]).conditions@,
                modified@[q].conditions@,
            ),
        decreases crate::consts::ROOKIE_COUNT - d,
    {
        let ghost before = modified@;
        let ghost od = modified@[d as int].conditions@;
        let ghost orig = original@[d as int].conditions@;
        let mut t: usize = 0;
        while t < 5
            invariant
                stages.len() == 5,
                forall|q: int| 0 <= q < 5 ==> (#[trigger] stages@[q])@ == stage_ids()[q],
                t <= 5,
                d < crate::consts::ROOKIE_COUNT,
                original.len() >= crate::consts::ROOKIE_COUNT,
                d < modified.len() == before.len(),
                orig == original@[d as int].conditions@,
                od == before[d as int].conditions@,
                od.len() == orig.len(),
                indices_name_forms(orig, forms@),
                stages_found(orig, forms@, orig.len() as int),
                modified@[d as int].conditions.len() == od.len(),
                cond_indices(modified@[d as int].conditions@).to_multiset() == cond_indices(od).to_multiset(),
                forall|k: int| 0 <= k < od.len() ==> same_but_index(#[trigger] od[k], modified@[d as int].conditions@[k]),
                forall|k: int| 0 <= k < od.len() && !staged(orig, forms@, k) ==> #[trigger] modified@[d as int].conditions@[k] == od[k],
                forall|q: int| 0 <= q < before.len() && q != d ==> #[trigger] modified@[q] == before[q],
            decreases 5 - t,
        {
            let ghost mid = modified@[d as int].conditions@;
            proof {
                assert forall|k: int| 0 <= k < stages@[t as int].len() implies 0 <= first_with_digimon(orig, forms@, #[trigger] stages@[t as int]@[k]) < mid.len() by {
                    assert(stages@[t as int]@[k] == stage_ids()[t as int][k]);
                }
                assert(stages@[t as int].len() >= 2);
            }
            shuffle_stage(&original[d].conditions, &mut modified[d].conditions, forms, &stages[t], shuffles, rng);
            proof {
                assert forall|k: int| 0 <= k < od.len() && !staged(orig, forms@, k) implies #[trigger] modified@[d as int].conditions@[k] == od[k] by {
                    if stage_positions(orig, forms@, stages@[t as int]@).contains(k) {
                        assert(stage_positions(orig, forms@, stage_ids()[t as int]).contains(k));
                    }
                    assert(mid[k] == od[k]);
                }
                assert forall|k: int| 0 <= k < od.len() implies same_but_index(#[trigger] od[k], modified@[d as int].conditions@[k]) by {
                    assert(same_but_index(mid[k], modified@[d as int].conditions@[k]));
                }
            }
            t += 1;
        }
        let ghost shuffled = modified@[d as int].conditions@;
        proof {
            assert forall|k: int| 0 <= k < shuffled.len() implies {
                &&& (#[trigger] shuffled[k]).dv_index_1 > 0 ==> first_with_index(orig, shuffled[k].dv_index_1 as u32) >= 0
                &&& shuffled[k].dv_index_2 > 0 ==> first_with_index(orig, shuffled[k].dv_index_2 as u32) >= 0
            } by {
                assert(same_but_index(od[k], shuffled[k]));
            }
        }
        remap_requirements(&original[d].conditions, &mut modified[d].conditions);
        proof {
            assert(conditions_shuffled_in_stages(orig, forms@, od, modified@[d as int].conditions@));
            assert forall|q: int| 0 <= q < d + 1 implies conditions_shuffled_in_stages(
                original@[q].conditions@,
                forms@,
                (#[trigger] old(modified)@[q]).conditions@,
                modified@[q].conditions@,
            ) by {
                if q < d {
                    assert(modified@[q] == before[q]);
                }
            }
        }
        d += 1;
    }
}

/// Carries the rookies' blast indices over to the renumbered forms.
#[verifier::spinoff_prover]
pub fn blasts(
    blast_indices: &mut Vec<Vec<u8>>,
    original: &Vec<DigivolutionConditions>,
    modified: &Vec<DigivolutionConditions>,
)
    requires
        old(blast_indices).len() >= crate::consts::ROOKIE_COUNT,
        original.len() >= crate::consts::ROOKIE_COUNT,
        modified.len() >= crate::consts::ROOKIE_COUNT,
        forall|r: int| 0 <= r < crate::consts::ROOKIE_COUNT ==> {
            &&& (#[trigger] old(blast_indices)@[r]).len() >= 5
            &&& modified@[r].conditions.len() >= original@[r].conditions.len()
            &&& forall|i: int| 0 <= i < 5 && old(blast_indices)@[r]@[i] != 0 ==>
                first_with_index(original@[r].conditions@, #[trigger] old(blast_indices)@[r]@[i] as u32) >= 0
        },
    ensures
        final(blast_indices).len() == old(blast_indices).len(),
        forall|r: int| 0 <= r < crate::consts::ROOKIE_COUNT ==> {
            &&& (#[trigger] final(blast_indices)@[r]).len() == old(blast_indices)@[r].len()
            &&& forall|i: int| 0 <= i < final(blast_indices)@[r].len() ==> #[trigger] final(blast_indices)@[r]@[i] == if 5 <= i
                || old(blast_indices)@[r]@[i] == 0 {
                old(blast_indices)@[r]@[i]
            } else {
                modified@[r].conditions@[first_with_index(original@[r].conditions@, old(blast_indices)@[r]@[i] as u32)].index as u8
            }
        },
        forall|r: int| crate::consts::ROOKIE_COUNT <= r < old(blast_indices).len() ==> #[trigger] final(blast_indices)@[r] == old(blast_indices)@[r],
{
    let mut r: usize = 0;
    while r < crate::consts::ROOKIE_COUNT
        invariant
            r <= crate::consts::ROOKIE_COUNT,
            blast_indices.len() == old(blast_indices).len() >= crate::consts::ROOKIE_COUNT,
            original.len() >= crate::consts::ROOKIE_COUNT,
            modified.len() >= crate::consts::ROOKIE_COUNT,
            forall|q: int| 0 <= q < crate::consts::ROOKIE_COUNT ==> {
                &&& (#[trigger] old(blast_indices)@[q]).len() >= 5
                &&& modified@[q].conditions.len() >= original@[q].conditions.len()
                &&& forall|i: int| 0 <= i < 5 && old(blast_indices)@[q]@[i] != 0 ==>
                    first_with_index(original@[q].conditions@, #[trigger] old(blast_indices)@[q]@[i] as u32) >= 0
            },
            forall|q: int| 0 <= q < r ==> {
                &&& (#[trigger] blast_indices@[q]).len() == old(blast_indices)@[q].len()
                &&& forall|i: int| 0 <= i < blast_indices@[q].len() ==> #[trigger] blast_indices@[q]@[i] == if 5 <= i
                    || old(blast_indices)@[q]@[i] == 0 {
                    old(blast_indices)@[q]@[i]
                } else {
                    modified@[q].conditions@[first_with_index(original@[q].conditions@, old(blast_indices)@[q]@[i] as u32)].index as u8
                }
            },
            forall|q: int| r <= q < blast_indices.len() ==> #[trigger] blast_indices@[q] == old(blast_indices)@[q],
        decreases crate::consts::ROOKIE_COUNT - r,
    {
        let ghost before = blast_indices@;
        let ghost ob = old(blast_indices)@[r as int]@;
        let mut i: usize = 0;
        while i < 5
            invariant
                r < crate::consts::ROOKIE_COUNT,
                i <= 5,
                blast_indices.len() == before.len() >= crate::consts::ROOKIE_COUNT,
                original.len() >= crate::consts::ROOKIE_COUNT,
                modified.len() >= crate::consts::ROOKIE_COUNT,
                ob == before[r as int]@,
                ob.len() >= 5,
                modified@[r as int].conditions.len() >= original@[r as int].conditions.len(),
                forall|j: int| 0 <= j < 5 && ob[j] != 0 ==> first_with_index(original@[r as int].conditions@, #[trigger] ob[j] as u32) >= 0,
                blast_indices@[r as int].len() == ob.len(),
                forall|j: int| i <= j < ob.len() ==> #[trigger] blast_indices@[r as int]@[j] == ob[j],
                forall|j: int| 0 <= j < i ==> #[trigger] blast_indices@[r as int]@[j] == if ob[j] == 0 {
                    ob[j]
                } else {
                    modified@[r as int].conditions@[first_with_index(original@[r as int].conditions@, ob[j] as u32)].index as u8
                },
                forall|q: int| 0 <= q < before.len() && q != r ==> #[trigger] blast_indices@[q] == before[q],
            decreases 5 - i,
        {
            let b = blast_indices[r][i];
            if b != 0 {
                match position_of_index(&original[r].conditions, b as u32) {
                    Some(p) => {
                        let v = modified[r].conditions[p].index as u8;
                        blast_indices[r].set(i, v);
                    },
                    None => {
                        assert(false);
                    },
                }
            }
            i += 1;
        }
        proof {
            assert forall|q: int| 0 <= q < r + 1 implies {
                &&& (#[trigger] blast_indices@[q]).len() == old(blast_indices)@[q].len()
                &&& forall|i: int| 0 <= i < blast_indices@[q].len() ==> #[trigger] blast_indices@[q]@[i] == if 5 <= i
                    || old(blast_indices)@[q]@[i] == 0 {
                    old(blast_indices)@[q]@[i]
                } else {
                    modified@[q].conditions@[first_with_index(original@[q].conditions@, old(blast_indices)@[q]@[i] as u32)].index as u8
                }
            } by {
                if q < r {
                    assert(blast_indices@[q] == before[q]);
                }
            }
        }
        r += 1;
    }
}

/// What the starting parties step does: nothing when `on` is off, else
/// what `random_parties` promises.
pub open spec fn parties_step(on: bool, shuffles: u8, old_p: Seq<u8>, new_p: Seq<u8>) -> bool {
    if !on {
        new_p == old_p
    } else {
        &&& new_p.len() == old_p.len()
        &&& parties_valid(new_p)
        &&& forall|k: int| 9 <= k < old_p.len() ==> #[trigger] new_p[k] == old_p[k]
        &&& exists|window_draw: u64, draws: Seq<Seq<usize>>|
            #![trigger parties_drawn(old_p, new_p, window_draw, draws)]
            {
                &&& draws.len() == 3
                &&& forall|i: int| 0 <= i < 3 ==> (#[trigger] draws[i]).len() == draw_count(8, shuffles as int)
                &&& parties_drawn(old_p, new_p, window_draw, draws)
            }
    }
}

/// What a distribution step that went through does: nothing when `on` is
/// off, else the stats shared out with some drawn weights
/// (`stats_outcome`).
pub open spec fn distribution_step(
    on: bool,
    old_r: Seq<DigivolutionData>,
    new_r: Seq<DigivolutionData>,
    stats: Seq<Stat>,
    total: int,
    min: int,
) -> bool {
    if !on {
        new_r == old_r
    } else {
        exists|ws: Seq<Seq<u64>>|
            #![trigger stats_outcome(old_r, new_r, stats, total, min, ws, Ok(()))]
            {
                &&& ws.len() == old_r.len()
                &&& forall|r: int| 0 <= r < ws.len() ==> (#[trigger] ws[r]).len() == stats.len() && u32_weights(ws[r])
                &&& stats_outcome(old_r, new_r, stats, total, min, ws, Ok(()))
            }
    }
}

/// What the learned techs step does: nothing when `on` is off, else what
/// `learned_moves` promises.
pub open spec fn learned_step(
    on: bool,
    originals: Seq<DigivolutionData>,
    old_r: Seq<DigivolutionData>,
    new_r: Seq<DigivolutionData>,
) -> bool {
    if !on {
        new_r == old_r
    } else {
        &&& new_r.len() == old_r.len()
        &&& forall|r: int| 0 <= r < old_r.len() ==> moves_relearned(#[trigger] old_r[r], new_r[r], learnable_techs(originals))
        &&& exists|pool: Seq<u16>, draws: Seq<Seq<u64>>|
            #![trigger strictly_increasing(pool), draws.len()]
            {
                &&& strictly_increasing(pool)
                &&& pool.to_set() == learnable_techs(originals)
                &&& draws.len() == old_r.len()
                &&& forall|r: int| 0 <= r < old_r.len() ==> techs_drawn(#[trigger] old_r[r], new_r[r], pool, draws[r])
            }
    }
}

/// What the signatures step does: nothing when `on` is off, else what
/// `signatures` promises of the rookies and the forms.
pub open spec fn signatures_step(
    on: bool,
    shuffles: u8,
    rookie_original: Seq<DigivolutionData>,
    old_r: Seq<DigivolutionData>,
    new_r: Seq<DigivolutionData>,
    dv_original: Seq<DigivolutionData>,
    old_d: Seq<DigivolutionData>,
    new_d: Seq<DigivolutionData>,
) -> bool {
    if !on {
        new_r == old_r && new_d == old_d
    } else {
        &&& signatures_dealt(old_r, new_r, ori_techs(rookie_original).to_set(), crate::consts::ROOKIE_COUNT as int)
        &&& signatures_dealt(old_d, new_d, ori_techs(dv_original).to_set(), crate::consts::DIGIVOLUTION_COUNT as int)
        &&& exists|rd: Seq<usize>, dd: Seq<usize>|
            #![trigger signatures_drawn(new_r, ori_techs(rookie_original).to_set(), crate::consts::ROOKIE_COUNT as int, rd), signatures_drawn(new_d, ori_techs(dv_original).to_set(), crate::consts::DIGIVOLUTION_COUNT as int, dd)]
            {
                &&& rd.len() == draw_count(ori_techs(rookie_original).to_set().len() as int, shuffles as int)
                &&& dd.len() == draw_count(ori_techs(dv_original).to_set().len() as int, shuffles as int)
                &&& signatures_drawn(new_r, ori_techs(rookie_original).to_set(), crate::consts::ROOKIE_COUNT as int, rd)
                &&& signatures_drawn(new_d, ori_techs(dv_original).to_set(), crate::consts::DIGIVOLUTION_COUNT as int, dd)
            }
    }
}

/// What the growth modifier step does: nothing when `on` is off, else
/// what `random_modifiers` promises.
pub open spec fn modifier_step(
    on: bool,
    which: Modifier,
    min: u8,
    max: u8,
    old_r: Seq<DigivolutionData>,
    new_r: Seq<DigivolutionData>,
) -> bool {
    if !on {
        new_r == old_r
    } else {
        &&& new_r.len() == old_r.len()
        &&& forall|r: int| 0 <= r < old_r.len() ==> {
            &&& same_but_modifier(#[trigger] old_r[r], new_r[r], which)
            &&& min <= modifier_value(new_r[r], which) <= max
        }
        &&& exists|draws: Seq<u64>| #[trigger] modifiers_drawn(new_r, which, min, max, draws)
    }
}

/// A distribution that went through keeps the records' number and techs.
proof fn lemma_distribution_keeps_techs(
    old_r: Seq<DigivolutionData>,
    new_r: Seq<DigivolutionData>,
    stats: Seq<Stat>,
    total: int,
    min: int,
)
    requires
        distribution_step(true, old_r, new_r, stats, total, min),
    ensures
        new_r.len() == old_r.len(),
        forall|r: int| 0 <= r < new_r.len() ==> (#[trigger] new_r[r]).tech == old_r[r].tech,
{
    let ws = choose|ws: Seq<Seq<u64>>|
        #![trigger stats_outcome(old_r, new_r, stats, total, min, ws, Ok(()))]
        {
            &&& ws.len() == old_r.len()
            &&& forall|r: int| 0 <= r < ws.len() ==> (#[trigger] ws[r]).len() == stats.len() && u32_weights(ws[r])
            &&& stats_outcome(old_r, new_r, stats, total, min, ws, Ok(()))
        };
    assert forall|r: int| 0 <= r < new_r.len() implies (#[trigger] new_r[r]).tech == old_r[r].tech by {
        assert(distributed_with(old_r[r], new_r[r], stats, total, min, ws[r]));
    }
}

/// What the party steps after the starting parties do to the rookies and
/// the forms: the stat and resistance distributions, the learned techs,
/// the signature techs and the experience modifiers, each on what the
/// steps before it left.
pub open spec fn rookies_patched(
    p: crate::json::Parties,
    shuffles: u8,
    rookie_original: Seq<DigivolutionData>,
    old_r: Seq<DigivolutionData>,
    new_r: Seq<DigivolutionData>,
    dv_original: Seq<DigivolutionData>,
    old_d: Seq<DigivolutionData>,
    new_d: Seq<DigivolutionData>,
) -> bool {
    exists|r1: Seq<DigivolutionData>, r2: Seq<DigivolutionData>, r3: Seq<DigivolutionData>, r4: Seq<DigivolutionData>|
        #![trigger distribution_step(p.stat_distribution, old_r, r1, base_stats(), p.total_starting_stats as int, p.min_starting_stat as int), distribution_step(p.res_distribution, r1, r2, resistances(), p.total_starting_res as int, p.min_starting_res as int), learned_step(p.learned_tech, rookie_original, r2, r3), modifier_step(p.exp_modifier, Modifier::Exp, p.min_exp_modifier, p.max_exp_modifier, r4, new_r)]
        {
            &&& distribution_step(p.stat_distribution, old_r, r1, base_stats(), p.total_starting_stats as int, p.min_starting_stat as int)
            &&& distribution_step(p.res_distribution, r1, r2, resistances(), p.total_starting_res as int, p.min_starting_res as int)
            &&& learned_step(p.learned_tech, rookie_original, r2, r3)
            &&& signatures_step(p.signatures, shuffles, rookie_original, r3, r4, dv_original, old_d, new_d)
            &&& modifier_step(p.exp_modifier, Modifier::Exp, p.min_exp_modifier, p.max_exp_modifier, r4, new_r)
        }
}

/// The preset's party settings can be carried out on these records: nine
/// party places, stats and resistances that fit their totals, no more
/// techs to relearn than there are learnable ones, enough different
/// signature techs and records, and ordered experience modifiers whose
/// range fits in a byte.
pub open spec fn parties_ready(
    p: crate::json::Parties,
    parties: Seq<u8>,
    rookie_original: Seq<DigivolutionData>,
    rookies: Seq<DigivolutionData>,
    dv_original: Seq<DigivolutionData>,
    dvs: Seq<DigivolutionData>,
) -> bool {
    &&& p.parties ==> parties.len() >= 9
    &&& p.stat_distribution ==> p.min_starting_stat * 5 <= p.total_starting_stats
    &&& p.res_distribution ==> p.min_starting_res * 7 <= p.total_starting_res
    &&& p.learned_tech ==> forall|r: int| 0 <= r < rookies.len() ==> nonzero_count(#[trigger] rookies[r].tech@)
        <= learnable_techs(rookie_original).len()
    &&& p.signatures ==> {
        &&& ori_techs(rookie_original).to_set().len() >= crate::consts::ROOKIE_COUNT
        &&& rookies.len() >= crate::consts::ROOKIE_COUNT
        &&& ori_techs(dv_original).to_set().len() >= crate::consts::DIGIVOLUTION_COUNT
        &&& dvs.len() >= crate::consts::DIGIVOLUTION_COUNT
    }
    &&& p.exp_modifier ==> p.min_exp_modifier <= p.max_exp_modifier && p.max_exp_modifier - p.min_exp_modifier < 255
}

/// Randomizes the parties as the preset asks, in this order: the
/// starting parties, the stat and then the resistance distributions, the
/// learned techs, the signature techs and the experience modifiers. A
/// distribution whose drawn weights are all zero for some rookie stops the
/// steps with `ZeroWeights`; else every step does what its function
/// promises, on what the steps before it left.
pub fn parties_patch(
    p: &crate::json::Parties,
    shuffles: u8,
    parties: &mut Vec<u8>,
    rookie_original: &Vec<DigivolutionData>,
    rookies: &mut Vec<DigivolutionData>,
    dv_original: &Vec<DigivolutionData>,
    dvs: &mut Vec<DigivolutionData>,
    rng: &mut Xoshiro256StarStar,
) -> (res: Result<(), PartiesError>)
    requires
        parties_ready(*p, old(parties)@, rookie_original@, old(rookies)@, dv_original@, old(dvs)@),
    ensures
        parties_step(p.parties, shuffles, old(parties)@, final(parties)@),
        res is Err ==> res == Err::<(), PartiesError>(PartiesError::ZeroWeights) && (p.stat_distribution || p.res_distribution),
        res is Ok ==> rookies_patched(*p, shuffles, rookie_original@, old(rookies)@, final(rookies)@, dv_original@, old(dvs)@, final(dvs)@),
{
    if p.parties {
        random_parties(parties, shuffles, rng);
    }
    let ghost r0 = rookies@;
    if p.stat_distribution {
        let stats = base_stat_list();
        let r = distribute_stats(rookies, &stats, p.total_starting_stats, p.min_starting_stat, rng);
        match &r {
            Err(_) => {
                return Err(PartiesError::ZeroWeights);
            },
            Ok(_) => {},
        }
        proof {
            assert(r is Ok);
            assert(r == Ok::<(), PartiesError>(r->Ok_0));
            assert(r == Ok::<(), PartiesError>(()));
            assert(stats@ == base_stats());
            let ws = choose|ws: Seq<Seq<u64>>|
                #![trigger stats_outcome(r0, rookies@, stats@, p.total_starting_stats as int, p.min_starting_stat as int, ws, r)]
                {
                    &&& ws.len() == r0.len()
                    &&& forall|q: int| 0 <= q < ws.len() ==> (#[trigger] ws[q]).len() == stats.len() && u32_weights(ws[q])
                    &&& stats_outcome(r0, rookies@, stats@, p.total_starting_stats as int, p.min_starting_stat as int, ws, r)
                };
            assert(stats_outcome(r0, rookies@, base_stats(), p.total_starting_stats as int, p.min_starting_stat as int, ws, Ok(())));
            assert(distribution_step(true, r0, rookies@, base_stats(), p.total_starting_stats as int, p.min_starting_stat as int));
            lemma_distribution_keeps_techs(r0, rookies@, base_stats(), p.total_starting_stats as int, p.min_starting_stat as int);
        }
    }
    let ghost r1 = rookies@;
    if p.res_distribution {
        let stats = resistance_list();
        let r = distribute_stats(rookies, &stats, p.total_starting_res, p.min_starting_res, rng);
        match &r {
            Err(_) => {
                return Err(PartiesError::ZeroWeights);
            },
            Ok(_) => {},
        }
        proof {
            assert(r is Ok);
            assert(r == Ok::<(), PartiesError>(r->Ok_0));
            assert(r == Ok::<(), PartiesError>(()));
            assert(stats@ == resistances());
            let ws = choose|ws: Seq<Seq<u64>>|
                #![trigger stats_outcome(r1, rookies@, stats@, p.total_starting_res as int, p.min_starting_res as int, ws, r)]
                {
                    &&& ws.len() == r1.len()
                    &&& forall|q: int| 0 <= q < ws.len() ==> (#[trigger] ws[q]).len() == stats.len() && u32_weights(ws[q])
                    &&& stats_outcome(r1, rookies@, stats@, p.total_starting_res as int, p.min_starting_res as int, ws, r)
                };
            assert(stats_outcome(r1, rookies@, resistances(), p.total_starting_res as int, p.min_starting_res as int, ws, Ok(())));
            assert(distribution_step(true, r1, rookies@, resistances(), p.total_starting_res as int, p.min_starting_res as int));
            lemma_distribution_keeps_techs(r1, rookies@, resistances(), p.total_starting_res as int, p.min_starting_res as int);
        }
    }
    let ghost r2 = rookies@;
    proof {
        assert(r2.len() == r0.len());
        assert forall|r: int| 0 <= r < r2.len() implies (#[trigger] r2[r]).tech == r0[r].tech by {
            assert(r2[r].tech == r1[r].tech);
        }
    }
    if p.learned_tech {
        proof {
            assert forall|r: int| 0 <= r < rookies.len() implies nonzero_count(#[trigger] rookies@[r].tech@)
                <= learnable_techs(rookie_original@).len() by {
                assert(r2[r].tech == r0[r].tech);
            }
        }
        learned_moves(rookie_original, rookies, rng);
    }
    let ghost r3 = rookies@;
    if p.signatures {
        signatures(rookie_original, rookies, dv_original, dvs, shuffles, rng);
    }
    let ghost r4 = rookies@;
    if p.exp_modifier {
        random_modifiers(rookies, Modifier::Exp, p.min_exp_modifier, p.max_exp_modifier, rng);
    }
    proof {
        assert(distribution_step(p.stat_distribution, r0, r1, base_stats(), p.total_starting_stats as int, p.min_starting_stat as int));
        assert(distribution_step(p.res_distribution, r1, r2, resistances(), p.total_starting_res as int, p.min_starting_res as int));
        assert(learned_step(p.learned_tech, rookie_original@, r2, r3));
        assert(signatures_step(p.signatures, shuffles, rookie_original@, r3, r4, dv_original@, old(dvs)@, dvs@));
        assert(modifier_step(p.exp_modifier, Modifier::Exp, p.min_exp_modifier, p.max_exp_modifier, r4, rookies@));
    }
    Ok(())
}

} // verus!
