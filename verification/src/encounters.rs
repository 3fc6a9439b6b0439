//! Shuffling of the encounters: which Digimon is met where.

use crate::consts::{BOSSES, CARDMON_MAX, CARDMON_MIN, GALACTICMON_IDS, TRICERAMON_ID, ZANBAMON_ID};
use crate::json::{Encounters, TNTStrategy};
use crate::structs::{EncounterData, EnemyStats};
use crate::util::{
    copies_drawn, draw_lists, occurrences, uniform_draws, uniform_drawn, uniform_random_vector_with_draws,
};
use rand_xoshiro::Xoshiro256StarStar;
use vstd::prelude::*;

verus! {

broadcast use vstd::seq_lib::group_to_multiset_ensures;

/// Whether `x` is one of the listed identifiers.
fn listed<const N: usize>(ids: &[u16; N], x: u16) -> (r: bool)
    ensures
        r == ids@.contains(x),
{
    let mut i: usize = 0;
    while i < N
        invariant
            i <= N,
            forall|k: int| 0 <= k < i ==> ids@[k] != x,
        decreases N - i,
    {
        if ids[i] == x {
            return true;
        }
        i += 1;
    }
    false
}

/// The encounter stays where it is: its Digimon is one that the preset
/// keeps out of the shuffle.
pub open spec fn skipped(e: EncounterData, p: Encounters) -> bool {
    let id = e.digimon_id as u16;
    ||| (!p.cardmon && CARDMON_MIN <= id && id <= CARDMON_MAX)
    ||| (!p.bosses && BOSSES@.contains(id))
    ||| (p.strategy == TNTStrategy::Keep && id == TRICERAMON_ID && e.multiplier == 16)
    ||| (p.keep_zanbamon && id == ZANBAMON_ID && e.multiplier == 16)
    ||| (p.keep_galacticmon && GALACTICMON_IDS@.contains(id))
}

/// With Galacticmon kept, an encounter with any of its three phases,
/// 0x1ba, 0x1d2 and 0x1d3, stays out of the shuffle, whatever else the
/// preset says.
pub proof fn lemma_galacticmon_kept(e: EncounterData, p: Encounters)
    requires
        p.keep_galacticmon,
        e.digimon_id == 0x1ba || e.digimon_id == 0x1d2 || e.digimon_id == 0x1d3,
    ensures
        skipped(e, p),
{
    let id = e.digimon_id as u16;
    assert(GALACTICMON_IDS@[0] == 0x1ba && GALACTICMON_IDS@[1] == 0x1d2 && GALACTICMON_IDS@[2] == 0x1d3);
    if id == 0x1ba {
        assert(GALACTICMON_IDS@.contains(id));
    } else if id == 0x1d2 {
        assert(GALACTICMON_IDS@[1] == id);
        assert(GALACTICMON_IDS@.contains(id));
    } else {
        assert(GALACTICMON_IDS@[2] == id);
        assert(GALACTICMON_IDS@.contains(id));
    }
}

/// Whether the preset keeps this encounter out of the shuffle.
pub fn skip(encounter: &EncounterData, preset: &Encounters) -> (r: bool)
    ensures
        r == skipped(*encounter, *preset),
        preset.keep_galacticmon && (encounter.digimon_id == 0x1ba || encounter.digimon_id == 0x1d2
            || encounter.digimon_id == 0x1d3) ==> r,
{
    proof {
        if preset.keep_galacticmon && (encounter.digimon_id == 0x1ba || encounter.digimon_id == 0x1d2
            || encounter.digimon_id == 0x1d3) {
            lemma_galacticmon_kept(*encounter, *preset);
        }
    }
    let id = encounter.digimon_id as u16;
    (!preset.cardmon && CARDMON_MIN <= id && id <= CARDMON_MAX)
        || (!preset.bosses && listed(&BOSSES, id))
        || (preset.strategy == TNTStrategy::Keep && id == TRICERAMON_ID && encounter.multiplier == 16)
        || (preset.keep_zanbamon && id == ZANBAMON_ID && encounter.multiplier == 16)
        || (preset.keep_galacticmon && listed(&GALACTICMON_IDS, id))
}

/// The Digimon of the encounters that take part in the shuffle, in order.
pub open spec fn open_ids(s: Seq<EncounterData>, p: Encounters) -> Seq<u32>
    decreases s.len(),
{
    if s.len() == 0 {
        Seq::empty()
    } else {
        let rest = open_ids(s.drop_last(), p);
        if skipped(s.last(), p) {
            rest
        } else {
            rest.push(s.last().digimon_id)
        }
    }
}

/// The Digimon that the shuffle put in the places of the encounters of
/// `old_s` that take part in it, in order.
pub open spec fn drawn_ids(old_s: Seq<EncounterData>, new_s: Seq<EncounterData>, p: Encounters) -> Seq<u32>
    decreases old_s.len(),
{
    if old_s.len() == 0 {
        Seq::empty()
    } else {
        let rest = drawn_ids(old_s.drop_last(), new_s.take(old_s.len() - 1), p);
        if skipped(old_s.last(), p) {
            rest
        } else {
            rest.push(new_s[old_s.len() - 1].digimon_id)
        }
    }
}

/// The encounters that the shuffle put in the places of the encounters of
/// `old_s` that take part in it, in order.
pub open spec fn placed(old_s: Seq<EncounterData>, new_s: Seq<EncounterData>, p: Encounters) -> Seq<EncounterData>
    decreases old_s.len(),
{
    if old_s.len() == 0 {
        Seq::empty()
    } else {
        let rest = placed(old_s.drop_last(), new_s.take(old_s.len() - 1), p);
        if skipped(old_s.last(), p) {
            rest
        } else {
            rest.push(new_s[old_s.len() - 1])
        }
    }
}

/// How many different encounters of the Digimon the original data holds.
pub open spec fn variant_count(original: Seq<EncounterData>, d: u32) -> nat {
    original.to_set().filter(|e: EncounterData| e.digimon_id == d).len()
}

/// A prefix has no more shuffled encounters than the whole sequence.
proof fn lemma_open_ids_prefix(s: Seq<EncounterData>, p: Encounters, i: int)
    requires
        0 <= i <= s.len(),
    ensures
        open_ids(s.take(i), p).len() <= open_ids(s, p).len(),
    decreases s.len(),
{
    if i == s.len() {
        assert(s.take(i) =~= s);
    } else {
        assert(s.drop_last().take(i) =~= s.take(i));
        lemma_open_ids_prefix(s.drop_last(), p, i);
    }
}

/// There are no more shuffled encounters than encounters.
proof fn lemma_open_ids_len(s: Seq<EncounterData>, p: Encounters)
    ensures
        open_ids(s, p).len() <= s.len(),
    decreases s.len(),
{
    if s.len() > 0 {
        lemma_open_ids_len(s.drop_last(), p);
    }
}

/// Every identifier of `open_ids` is that of a shuffled encounter.
proof fn lemma_open_ids_members(s: Seq<EncounterData>, p: Encounters, d: u32)
    ensures
        open_ids(s, p).contains(d) <==> exists|i: int|
            0 <= i < s.len() && !skipped(#[trigger] s[i], p) && s[i].digimon_id == d,
    decreases s.len(),
{
    if s.len() > 0 {
        let rest = s.drop_last();
        lemma_open_ids_members(rest, p, d);
        if open_ids(s, p).contains(d) {
            if open_ids(rest, p).contains(d) {
                let i = choose|i: int| 0 <= i < rest.len() && !skipped(#[trigger] rest[i], p) && rest[i].digimon_id == d;
                assert(s[i] == rest[i]);
            } else {
                let o = open_ids(s, p);
                let k = choose|k: int| 0 <= k < o.len() && o[k] == d;
                assert(!skipped(s.last(), p));
                assert(s[s.len() - 1] == s.last());
            }
        }
        if exists|i: int| 0 <= i < s.len() && !skipped(#[trigger] s[i], p) && s[i].digimon_id == d {
            let i = choose|i: int| 0 <= i < s.len() && !skipped(#[trigger] s[i], p) && s[i].digimon_id == d;
            if i < s.len() - 1 {
                assert(rest[i] == s[i]);
                let o = open_ids(rest, p);
                let k = choose|k: int| 0 <= k < o.len() && o[k] == d;
                if !skipped(s.last(), p) {
                    assert(open_ids(s, p)[k] == d);
                }
            } else {
                let o = open_ids(s, p);
                assert(o[o.len() - 1] == d);
            }
        }
    }
}

/// The Digimon of the encounters that take part in the shuffle.
fn open_id_list(encounters: &Vec<EncounterData>, preset: &Encounters) -> (ids: Vec<u32>)
    ensures
        ids@ == open_ids(encounters@, *preset),
{
    let mut ids: Vec<u32> = Vec::new();
    let mut i: usize = 0;
    while i < encounters.len()
        invariant
            i <= encounters.len(),
            ids@ == open_ids(encounters@.take(i as int), *preset),
        decreases encounters.len() - i,
    {
        assert(encounters@.take(i + 1).drop_last() =~= encounters@.take(i as int));
        if !skip(&encounters[i], preset) {
            ids.push(encounters[i].digimon_id);
        }
        i += 1;
    }
    assert(encounters@.take(i as int) =~= encounters@);
    ids
}

/// The identifiers are strictly increasing.
pub open spec fn increasing(s: Seq<u32>) -> bool {
    forall|a: int, b: int| 0 <= a < b < s.len() ==> s[a] < s[b]
}

/// Adds `x` to an increasing set of identifiers, keeping it increasing.
#[verifier::spinoff_prover]
fn insert_id(set: &mut Vec<u32>, x: u32)
    requires
        increasing(old(set)@),
    ensures
        increasing(final(set)@),
        forall|y: u32| #[trigger] final(set)@.contains(y) <==> (old(set)@.contains(y) || y == x),
{
    let mut p: usize = 0;
    while p < set.len() && set[p] < x
        invariant
            p <= set.len(),
            forall|k: int| 0 <= k < p ==> set@[k] < x,
        decreases set.len() - p,
    {
        p += 1;
    }
    if p < set.len() && set[p] == x {
        return;
    }
    let ghost before = set@;
    set.insert(p, x);
    proof {
        before.insert_ensures(p as int, x);
        assert forall|a: int, b: int| 0 <= a < b < set@.len() implies set@[a] < set@[b] by {
            if b < p {
            } else if a < p && b == p {
            } else if a < p {
                assert(set@[b] == before[b - 1]);
                assert(before[a] < before[b - 1] || a == b - 1);
            } else if a == p {
                assert(set@[b] == before[b - 1]);
                assert(before[p as int] > x);
                assert(before[p as int] <= before[b - 1]);
            } else {
                assert(set@[a] == before[a - 1]);
                assert(set@[b] == before[b - 1]);
            }
        }
        assert forall|y: u32| #[trigger] set@.contains(y) <==> (before.contains(y) || y == x) by {
            if set@.contains(y) {
                let k = choose|k: int| 0 <= k < set@.len() && set@[k] == y;
                if k < p {
                    assert(before[k] == y);
                } else if k > p {
                    assert(before[k - 1] == y);
                }
            }
            if before.contains(y) {
                let k = choose|k: int| 0 <= k < before.len() && before[k] == y;
                if k < p {
                    assert(set@[k] == y);
                } else {
                    assert(set@[k + 1] == y);
                }
            }
            if y == x {
                assert(set@[p as int] == x);
            }
        }
    }
}

/// The distinct identifiers in increasing order, as a sorted set gives them.
fn distinct_ids(values: &Vec<u32>) -> (set: Vec<u32>)
    ensures
        increasing(set@),
        set@.no_duplicates(),
        set@.to_set() == values@.to_set(),
        set.len() <= values.len(),
{
    let mut set: Vec<u32> = Vec::new();
    let mut i: usize = 0;
    while i < values.len()
        invariant
            i <= values.len(),
            increasing(set@),
            forall|y: u32| #[trigger] set@.contains(y) <==> values@.take(i as int).contains(y),
        decreases values.len() - i,
    {
        insert_id(&mut set, values[i]);
        proof {
            assert forall|y: u32| #[trigger] set@.contains(y) <==> values@.take(i + 1).contains(y) by {
                let t1 = values@.take(i + 1);
                let t0 = values@.take(i as int);
                if t1.contains(y) {
                    let k = choose|k: int| 0 <= k < t1.len() && t1[k] == y;
                    if k < i {
                        assert(t0[k] == y);
                    }
                }
                if t0.contains(y) {
                    let k = choose|k: int| 0 <= k < t0.len() && t0[k] == y;
                    assert(t1[k] == y);
                }
                if y == values@[i as int] {
                    assert(values@.take(i + 1)[i as int] == y);
                }
            }
        }
        i += 1;
    }
    proof {
        assert(values@.take(i as int) =~= values@);
        assert(set@.no_duplicates()) by {
            assert forall|a: int, b: int| 0 <= a < set@.len() && 0 <= b < set@.len() && a != b implies set@[a] != set@[b] by {
                if a < b {
                    assert(set@[a] < set@[b]);
                } else {
                    assert(set@[b] < set@[a]);
                }
            }
        }
        assert(set@.to_set() =~= values@.to_set());
        set@.unique_seq_to_set();
        values@.lemma_cardinality_of_set();
    }
    set
}

/// The distinct encounters of Digimon `d`, in the order they first occur.
pub open spec fn variant_list(s: Seq<EncounterData>, d: u32) -> Seq<EncounterData>
    decreases s.len(),
{
    if s.len() == 0 {
        Seq::empty()
    } else {
        let r = variant_list(s.drop_last(), d);
        if s.last().digimon_id == d && !r.contains(s.last()) {
            r.push(s.last())
        } else {
            r
        }
    }
}

/// The distinct encounters of one Digimon, in the order they first occur.
fn variants(encounters: &Vec<EncounterData>, digimon_id: u32) -> (pool: Vec<EncounterData>)
    ensures
        pool@ == variant_list(encounters@, digimon_id),
        pool@.no_duplicates(),
        forall|e: EncounterData| #[trigger] pool@.contains(e) <==> (encounters@.contains(e) && e.digimon_id == digimon_id),
{
    let mut pool: Vec<EncounterData> = Vec::new();
    let mut i: usize = 0;
    while i < encounters.len()
        invariant
            i <= encounters.len(),
            pool@.no_duplicates(),
            forall|e: EncounterData| #[trigger] pool@.contains(e) <==> (encounters@.take(i as int).contains(e) && e.digimon_id == digimon_id),
            pool@ == variant_list(encounters@.take(i as int), digimon_id),
        decreases encounters.len() - i,
    {
        let e = encounters[i];
        proof {
            assert(encounters@.take(i + 1).drop_last() =~= encounters@.take(i as int));
            assert(encounters@.take(i + 1).last() == e);
        }
        let ghost before = pool@;
        if e.digimon_id == digimon_id {
            let mut known = false;
            let mut k: usize = 0;
            while k < pool.len()
                invariant
                    k <= pool.len(),
                    known <==> exists|q: int| 0 <= q < k && pool@[q] == e,
                decreases pool.len() - k,
            {
                if pool[k] == e {
                    known = true;
                }
                k += 1;
            }
            proof {
                if known {
                    let q = choose|q: int| 0 <= q < k && pool@[q] == e;
                    assert(before.contains(e));
                } else {
                    assert(!before.contains(e));
                }
            }
            if !known {
                pool.push(e);
            }
        }
        proof {
            let t1 = encounters@.take(i + 1);
            let t0 = encounters@.take(i as int);
            assert(t1 =~= t0.push(e));
            assert forall|x: EncounterData| #[trigger] pool@.contains(x) <==> (t1.contains(x) && x.digimon_id == digimon_id) by {
                if t1.contains(x) {
                    let q = choose|q: int| 0 <= q < t1.len() && t1[q] == x;
                    if q < i {
                        assert(t0[q] == x);
                    }
                }
                if t0.contains(x) {
                    let q = choose|q: int| 0 <= q < t0.len() && t0[q] == x;
                    assert(t1[q] == x);
                }
                if pool@.contains(x) && !before.contains(x) {
                    assert(pool@ == before.push(e));
                    let q = choose|q: int| 0 <= q < pool@.len() && pool@[q] == x;
                    assert(q == before.len());
                }
                if before.contains(x) {
                    let q = choose|q: int| 0 <= q < before.len() && before[q] == x;
                    assert(pool@[q] == x);
                }
                if x == e && x.digimon_id == digimon_id {
                    assert(t1[i as int] == x);
                    if !before.contains(x) {
                        assert(pool@[before.len() as int] == x);
                    }
                }
            }
        }
        i += 1;
    }
    assert(encounters@.take(i as int) =~= encounters@);
    pool
}

/// How often `d` occurs in `v`.
fn count_of(v: &Vec<u32>, d: u32) -> (n: usize)
    ensures
        n == occurrences(v@, d),
        n <= v.len(),
{
    let mut n: usize = 0;
    let mut i: usize = 0;
    while i < v.len()
        invariant
            i <= v.len(),
            n == occurrences(v@.take(i as int), d),
            n <= i,
        decreases v.len() - i,
    {
        assert(v@.take(i + 1) =~= v@.take(i as int).push(v@[i as int]));
        if v[i] == d {
            n += 1;
        }
        i += 1;
    }
    assert(v@.take(i as int) =~= v@);
    n
}

/// Where `d` stands in the list.
fn position_of_id(ids: &Vec<u32>, d: u32) -> (j: usize)
    requires
        ids@.contains(d),
    ensures
        j < ids.len(),
        ids@[j as int] == d,
{
    let mut j: usize = 0;
    while j < ids.len()
        invariant
            j <= ids.len(),
            ids@.contains(d),
            forall|k: int| 0 <= k < j ==> ids@[k] != d,
        decreases ids.len() - j,
    {
        if ids[j] == d {
            return j;
        }
        j += 1;
    }
    j
}

/// The encounter whose place decides which Digimon receives the drop of
/// Triceramon under the swap strategy: a level 6 Triceramon in a group of 16.
pub open spec fn tnt_triceramon(e: EncounterData) -> bool {
    e.digimon_id as u16 == TRICERAMON_ID && e.lv == 6 && e.multiplier == 16
}

/// `k` is the first such encounter.
pub open spec fn first_tnt(s: Seq<EncounterData>, k: int) -> bool {
    &&& 0 <= k < s.len()
    &&& tnt_triceramon(s[k])
    &&& forall|j: int| 0 <= j < k ==> !tnt_triceramon(#[trigger] s[j])
}

/// Some record holds the statistics of Digimon `id`.
pub open spec fn has_stats(stats: Seq<EnemyStats>, id: u16) -> bool {
    exists|k: int| 0 <= k < stats.len() && (#[trigger] stats[k]).digimon_id == id
}

/// `k` is the first record of Digimon `id`.
pub open spec fn first_stats(stats: Seq<EnemyStats>, id: u16, k: int) -> bool {
    &&& 0 <= k < stats.len()
    &&& stats[k].digimon_id == id
    &&& forall|j: int| 0 <= j < k ==> (#[trigger] stats[j]).digimon_id != id
}

/// The drops (item and rate) of records `t` and `s` trade places; nothing
/// else changes.
pub open spec fn drops_exchanged(old_s: Seq<EnemyStats>, new_s: Seq<EnemyStats>, t: int, s: int) -> bool {
    &&& new_s.len() == old_s.len()
    &&& forall|k: int| 0 <= k < old_s.len() && k != t && k != s ==> #[trigger] new_s[k] == old_s[k]
    &&& new_s[s] == (EnemyStats { droppable_item: old_s[t].droppable_item, drop_rate: old_s[t].drop_rate, ..old_s[s] })
    &&& t != s ==> new_s[t] == (EnemyStats { droppable_item: old_s[s].droppable_item, drop_rate: old_s[s].drop_rate, ..old_s[t] })
}

/// The first record of Digimon `id`.
fn find_stats(stats: &Vec<EnemyStats>, id: u16) -> (k: usize)
    requires
        has_stats(stats@, id),
    ensures
        first_stats(stats@, id, k as int),
{
    let mut k: usize = 0;
    while k < stats.len()
        invariant
            k <= stats.len(),
            has_stats(stats@, id),
            forall|j: int| 0 <= j < k ==> (#[trigger] stats@[j]).digimon_id != id,
        decreases stats.len() - k,
    {
        if stats[k].digimon_id == id {
            return k;
        }
        k += 1;
    }
    k
}

/// The first level 6 Triceramon in a group of 16.
fn find_tnt(encounters: &Vec<EncounterData>) -> (k: usize)
    requires
        exists|k: int| 0 <= k < encounters.len() && tnt_triceramon(#[trigger] encounters@[k]),
    ensures
        first_tnt(encounters@, k as int),
{
    let mut k: usize = 0;
    while k < encounters.len()
        invariant
            k <= encounters.len(),
            exists|k: int| 0 <= k < encounters.len() && tnt_triceramon(#[trigger] encounters@[k]),
            forall|j: int| 0 <= j < k ==> !tnt_triceramon(#[trigger] encounters@[j]),
        decreases encounters.len() - k,
    {
        let e = encounters[k];
        if e.digimon_id as u16 == TRICERAMON_ID && e.lv == 6 && e.multiplier == 16 {
            return k;
        }
        k += 1;
    }
    k
}

/// Record `s` takes the drop of record `t`, and `t` the former drop of `s`.
fn exchange_drops(stats: &mut Vec<EnemyStats>, t: usize, s: usize)
    requires
        t < old(stats).len(),
        s < old(stats).len(),
    ensures
        drops_exchanged(old(stats)@, final(stats)@, t as int, s as int),
{
    let t_item = stats[t].droppable_item;
    let t_rate = stats[t].drop_rate;
    let s_item = stats[s].droppable_item;
    let s_rate = stats[s].drop_rate;
    stats[s].droppable_item = t_item;
    stats[s].drop_rate = t_rate;
    stats[t].droppable_item = s_item;
    stats[t].drop_rate = s_rate;
}

/// In a vector drawn by `uniform_random_vector` from an alphabet without
/// duplicates, at least as long as the alphabet, every letter occurs.
proof fn lemma_each_letter_drawn(drawn: Seq<u32>, alphabet: Seq<u32>, length: int)
    requires
        alphabet.no_duplicates(),
        1 <= alphabet.len() <= length,
        forall|x: u32|
            #![trigger occurrences(drawn, x)]
            (copies_drawn(length, alphabet.len() as int) - 1) * occurrences(alphabet, x) <= occurrences(drawn, x),
        length % (alphabet.len() as int) == 0 ==> forall|x: u32|
            #![trigger occurrences(drawn, x)]
            occurrences(drawn, x) == (length / (alphabet.len() as int)) * occurrences(alphabet, x),
    ensures
        forall|x: u32| alphabet.contains(x) ==> #[trigger] occurrences(drawn, x) >= 1,
{
    let n = alphabet.len() as int;
    alphabet.lemma_multiset_has_no_duplicates();
    assert forall|x: u32| alphabet.contains(x) implies #[trigger] occurrences(drawn, x) >= 1 by {
        assert(alphabet.to_multiset().contains(x));
        assert(occurrences(alphabet, x) == 1);
        if length == n {
            assert(length % n == 0) by (nonlinear_arith)
                requires length == n, n >= 1;
            assert(length / n == 1) by (nonlinear_arith)
                requires length == n, n >= 1;
            assert(occurrences(drawn, x) == (length / n) * occurrences(alphabet, x));
        } else {
            assert((length - 1) / n >= 1) by (nonlinear_arith)
                requires length - 1 >= n, n >= 1;
            assert(copies_drawn(length, n) - 1 >= 1);
            assert((copies_drawn(length, n) - 1) * occurrences(alphabet, x) <= occurrences(drawn, x));
        }
    }
}

/// How many copies of the set of shuffled Digimon are drawn for the
/// places of the shuffled encounters of `original`.
pub open spec fn id_copies(original: Seq<EncounterData>, p: Encounters) -> int {
    copies_drawn(open_ids(original, p).len() as int, open_ids(original, p).to_set().len() as int)
}

/// A list of the different encounters of a Digimon is as long as their
/// number.
proof fn lemma_variants_len(original: Seq<EncounterData>, vars: Seq<EncounterData>, d: u32)
    requires
        vars.no_duplicates(),
        forall|e: EncounterData| #[trigger] vars.contains(e) <==> (original.contains(e) && e.digimon_id == d),
    ensures
        vars.len() == variant_count(original, d),
{
    vars.unique_seq_to_set();
    assert(vars.to_set() =~= original.to_set().filter(|e: EncounterData| e.digimon_id == d));
}

/// How often each Digimon was drawn: never more than the copies drawn of
/// the list of Digimon, and, once all drawn ones are placed, at least one
/// copy fewer.
proof fn lemma_id_balance(
    original: Seq<EncounterData>,
    p: Encounters,
    possible: Seq<u32>,
    shuffled0: Seq<u32>,
    shuffled: Seq<u32>,
    drawn: Seq<u32>,
    nk: int,
    n: int,
)
    requires
        n == possible.len() == open_ids(original, p).to_set().len(),
        nk == open_ids(original, p).len(),
        n >= 1,
        nk >= 1,
        possible.no_duplicates(),
        forall|x: u32| #[trigger] possible.contains(x) <==> open_ids(original, p).contains(x),
        forall|x: u32|
            #![trigger occurrences(shuffled0, x)]
            (copies_drawn(nk, n) - 1) * occurrences(possible, x) <= occurrences(shuffled0, x)
                <= copies_drawn(nk, n) * occurrences(possible, x),
        forall|x: u32|
            #![trigger occurrences(shuffled, x)]
            occurrences(drawn, x) + occurrences(shuffled, x) == occurrences(shuffled0, x),
    ensures
        forall|d: u32| #[trigger] occurrences(drawn, d) <= id_copies(original, p),
        shuffled.len() == 0 ==> forall|d: u32|
            open_ids(original, p).contains(d) ==> id_copies(original, p) - 1 <= #[trigger] occurrences(drawn, d),
{
    possible.lemma_multiset_has_no_duplicates();
    let k = copies_drawn(nk, n);
    assert(k >= 1) by (nonlinear_arith)
        requires k == (nk - 1) / n + 1, nk >= 1, n >= 1;
    assert forall|d: u32| #[trigger] occurrences(drawn, d) <= id_copies(original, p) by {
        assert(occurrences(drawn, d) + occurrences(shuffled, d) == occurrences(shuffled0, d));
        assert(occurrences(shuffled0, d) <= k * occurrences(possible, d));
        if possible.contains(d) {
            assert(possible.to_multiset().contains(d));
            assert(occurrences(possible, d) == 1);
        } else {
            assert(occurrences(possible, d) == 0);
        }
        assert(k * occurrences(possible, d) <= k) by (nonlinear_arith)
            requires occurrences(possible, d) <= 1, k >= 1;
    }
    if shuffled.len() == 0 {
        assert forall|d: u32| open_ids(original, p).contains(d) implies id_copies(original, p) - 1
            <= #[trigger] occurrences(drawn, d) by {
            assert(possible.contains(d));
            assert(possible.to_multiset().contains(d));
            assert(occurrences(possible, d) == 1);
            assert(shuffled =~= Seq::<u32>::empty());
            assert(occurrences(shuffled, d) == 0);
            assert(occurrences(drawn, d) + occurrences(shuffled, d) == occurrences(shuffled0, d));
            assert((k - 1) * occurrences(possible, d) <= occurrences(shuffled0, d));
        }
    }
}

/// Two increasing sequences with the same elements are equal.
proof fn lemma_increasing_unique(a: Seq<u32>, b: Seq<u32>)
    requires
        increasing(a),
        increasing(b),
        a.to_set() == b.to_set(),
    ensures
        a == b,
    decreases a.len(),
{
    if a.len() == 0 {
        if b.len() > 0 {
            assert(b.to_set().contains(b[0]));
            assert(a.to_set().contains(b[0]));
        }
        assert(a =~= b);
    } else {
        assert(a.to_set().contains(a[0]));
        assert(b.to_set().contains(a[0]));
        assert(b.len() > 0);
        assert(b.to_set().contains(b[0]));
        assert(a.to_set().contains(b[0]));
        let i = choose|i: int| 0 <= i < a.len() && a[i] == b[0];
        let j = choose|j: int| 0 <= j < b.len() && b[j] == a[0];
        assert(a[0] <= a[i]);
        assert(b[0] <= b[j]);
        assert(a[0] == b[0]);
        let a1 = a.drop_first();
        let b1 = b.drop_first();
        assert forall|x: u32| a1.to_set().contains(x) <==> b1.to_set().contains(x) by {
            if a1.to_set().contains(x) {
                let k = choose|k: int| 0 <= k < a1.len() && a1[k] == x;
                assert(a[k + 1] == x);
                assert(a.to_set().contains(x));
                assert(b.to_set().contains(x));
                let m = choose|m: int| 0 <= m < b.len() && b[m] == x;
                assert(a[0] < x);
                assert(m != 0);
                assert(b1[m - 1] == x);
            }
            if b1.to_set().contains(x) {
                let k = choose|k: int| 0 <= k < b1.len() && b1[k] == x;
                assert(b[k + 1] == x);
                assert(b.to_set().contains(x));
                assert(a.to_set().contains(x));
                let m = choose|m: int| 0 <= m < a.len() && a[m] == x;
                assert(b[0] < x);
                assert(m != 0);
                assert(a1[m - 1] == x);
            }
        }
        assert(a1.to_set() =~= b1.to_set());
        lemma_increasing_unique(a1, b1);
        assert(a =~= seq![a[0]] + a1);
        assert(b =~= seq![b[0]] + b1);
    }
}

/// Lists of lists of draws, as sequences.
pub open spec fn draw_tables(v: Seq<Vec<Vec<usize>>>) -> Seq<Seq<Seq<usize>>> {
    v.map_values(|t: Vec<Vec<usize>>| draw_lists(t@))
}

/// The different identifiers of the encounters that take part in the
/// shuffle, in increasing order.
pub open spec fn sorted_open_ids(original: Seq<EncounterData>, p: Encounters) -> Seq<u32> {
    choose|s: Seq<u32>| increasing(s) && s.to_set() == open_ids(original, p).to_set()
}

/// The vector of identifiers that the given draws build from the
/// different identifiers (`uniform_drawn`).
pub open spec fn id_vector(original: Seq<EncounterData>, p: Encounters, copy_draws: Seq<Seq<usize>>, final_draws: Seq<usize>) -> Seq<u32> {
    uniform_drawn(sorted_open_ids(original, p), open_ids(original, p).len() as int, copy_draws, final_draws)
}

/// The vector of Digimon `d`'s encounters that the given draws build: as
/// long as `d` occurs in the vector of identifiers.
pub open spec fn encounter_vector(
    original: Seq<EncounterData>,
    d: u32,
    ids: Seq<u32>,
    copy_draws: Seq<Seq<usize>>,
    final_draws: Seq<usize>,
) -> Seq<EncounterData> {
    uniform_drawn(variant_list(original, d), occurrences(ids, d) as int, copy_draws, final_draws)
}

/// The draws have the lengths that building the vectors takes: the
/// identifiers' from `id_copy`, `id_final`, and for the identifier at `q`
/// in increasing order its encounters' from `pool_copy[q]`,
/// `pool_final[q]`.
pub open spec fn encounter_draws_fit(
    original: Seq<EncounterData>,
    p: Encounters,
    id_copy: Seq<Seq<usize>>,
    id_final: Seq<usize>,
    pool_copy: Seq<Seq<Seq<usize>>>,
    pool_final: Seq<Seq<usize>>,
) -> bool {
    let n = open_ids(original, p).to_set().len() as int;
    let nk = open_ids(original, p).len() as int;
    let ids = id_vector(original, p, id_copy, id_final);
    let sorted = sorted_open_ids(original, p);
    &&& id_copy.len() == copies_drawn(nk, n)
    &&& forall|c: int| 0 <= c < id_copy.len() ==> (#[trigger] id_copy[c]).len() == 0 || n >= 2
    &&& id_final.len() == 0 || nk >= 2
    &&& pool_copy.len() == n
    &&& pool_final.len() == n
    &&& forall|q: int| 0 <= q < n ==> {
        let d = sorted[q];
        &&& (#[trigger] pool_copy[q]).len() == copies_drawn(occurrences(ids, d) as int, variant_count(original, d) as int)
        &&& forall|c: int| 0 <= c < pool_copy[q].len() ==> (#[trigger] pool_copy[q][c]).len() == 0 || variant_count(original, d) >= 2
        &&& pool_final[q].len() == 0 || occurrences(ids, d) >= 2
    }
}

/// The shuffle placed its encounters as the given draws say: the `j`-th
/// encounter that takes part gets the identifier at `nk - 1 - j` of the
/// vector of identifiers, and the encounter of that Digimon's vector
/// taken from its end, one further for each earlier place with that
/// Digimon.
pub open spec fn encounters_drawn(
    p: Encounters,
    original: Seq<EncounterData>,
    old_m: Seq<EncounterData>,
    new_m: Seq<EncounterData>,
    id_copy: Seq<Seq<usize>>,
    id_final: Seq<usize>,
    pool_copy: Seq<Seq<Seq<usize>>>,
    pool_final: Seq<Seq<usize>>,
) -> bool {
    let ids = id_vector(original, p, id_copy, id_final);
    let nk = open_ids(original, p).len() as int;
    let sorted = sorted_open_ids(original, p);
    let drawn = drawn_ids(old_m, new_m, p);
    let pl = placed(old_m, new_m, p);
    &&& pl.len() == drawn.len()
    &&& forall|j: int|
        0 <= j < drawn.len() ==> {
            &&& #[trigger] drawn[j] == ids[nk - 1 - j]
            &&& exists|q: int|
                0 <= q < sorted.len() && sorted[q] == drawn[j] && {
                    let v = encounter_vector(original, drawn[j], ids, pool_copy[q], pool_final[q]);
                    pl[j] == v[v.len() - 1 - occurrences(drawn.take(j), drawn[j])]
                }
        }
}

/// The encounter placed `jj`-th is the one of its Digimon's vector taken
/// from its end, one further for each earlier place with that Digimon.
pub open spec fn placed_at(
    possible: Seq<u32>,
    pools: Seq<Seq<EncounterData>>,
    drawn: Seq<u32>,
    placed: Seq<EncounterData>,
    jj: int,
) -> bool {
    exists|q: int|
        0 <= q < possible.len() && possible[q] == drawn[jj] && placed[jj] == pools[q][pools[q].len() - 1 - occurrences(
            drawn.take(jj),
            drawn[jj],
        )]
}

/// What `patch` does to the encounters.
pub open spec fn encounters_shuffled(
    p: Encounters,
    original: Seq<EncounterData>,
    old_m: Seq<EncounterData>,
    new_m: Seq<EncounterData>,
) -> bool {
    let drawn = drawn_ids(old_m, new_m, p);
    &&& new_m.len() == old_m.len()
    &&& forall|i: int| 0 <= i < old_m.len() && skipped(#[trigger] old_m[i], p) ==> new_m[i] == old_m[i]
    &&& forall|i: int| 0 <= i < old_m.len() && !skipped(#[trigger] old_m[i], p) ==> {
        &&& original.contains(new_m[i])
        &&& open_ids(original, p).contains(new_m[i].digimon_id)
    }
    &&& forall|d: u32| #[trigger] occurrences(drawn, d) <= id_copies(original, p)
    &&& open_ids(old_m, p).len() == open_ids(original, p).len() ==> forall|d: u32|
        open_ids(original, p).contains(d) ==> id_copies(original, p) - 1 <= #[trigger] occurrences(drawn, d)
    &&& open_ids(old_m, p).len() == open_ids(original, p).len() ==> forall|v: EncounterData|
        original.contains(v) && open_ids(original, p).contains(v.digimon_id) ==> {
            let copies = copies_drawn(occurrences(drawn, v.digimon_id) as int, variant_count(original, v.digimon_id) as int);
            copies - 1 <= #[trigger] occurrences(placed(old_m, new_m, p), v) <= copies
        }
}

/// Shuffles the encounters: every encounter that the preset does not keep
/// receives a Digimon drawn evenly from those of such encounters, and one
/// of that Digimon's encounters in the original data, the different
/// encounters of each Digimon drawn evenly in turn. Under the swap
/// strategy Triceramon then trades its drop (the TNT Ball) with the
/// Digimon now met in the place of the first level 6 Triceramon.
#[verifier::spinoff_prover]
#[verifier::rlimit(40)]
pub fn patch_with_draws(
    preset: &Encounters,
    original: &Vec<EncounterData>,
    modified: &mut Vec<EncounterData>,
    enemy_stats: &mut Vec<EnemyStats>,
    id_copy: &Vec<Vec<usize>>,
    id_final: &Vec<usize>,
    pool_copy: &Vec<Vec<Vec<usize>>>,
    pool_final: &Vec<Vec<usize>>,
)
    requires
        encounter_draws_fit(original@, *preset, draw_lists(id_copy@), id_final@, draw_tables(pool_copy@), draw_lists(pool_final@)),
        original.len() <= usize::MAX / 2,
        open_ids(original@, *preset).len() >= 1,
        open_ids(old(modified)@, *preset).len() <= open_ids(original@, *preset).len(),
        preset.strategy == TNTStrategy::Swap ==> {
            &&& has_stats(old(enemy_stats)@, TRICERAMON_ID)
            &&& exists|k: int| 0 <= k < original.len() && k < old(modified).len() && tnt_triceramon(#[trigger] original@[k])
            &&& forall|k: int| first_tnt(original@, k) ==> has_stats(old(enemy_stats)@, old(modified)@[k].digimon_id as u16)
            &&& forall|k: int| 0 <= k < original.len() && !skipped(#[trigger] original@[k], *preset) ==> has_stats(old(enemy_stats)@, original@[k].digimon_id as u16)
        },
    ensures
        encounters_shuffled(*preset, original@, old(modified)@, final(modified)@),
        preset.keep_galacticmon ==> forall|i: int|
            0 <= i < old(modified).len() && (old(modified)@[i].digimon_id == 0x1ba || old(modified)@[i].digimon_id == 0x1d2
                || old(modified)@[i].digimon_id == 0x1d3) ==> #[trigger] final(modified)@[i] == old(modified)@[i],
        preset.strategy != TNTStrategy::Swap ==> final(enemy_stats)@ == old(enemy_stats)@,
        preset.strategy == TNTStrategy::Swap ==> forall|t: int, k: int, s: int|
            #![trigger first_stats(old(enemy_stats)@, TRICERAMON_ID, t), first_tnt(original@, k), first_stats(old(enemy_stats)@, final(modified)@[k].digimon_id as u16, s)]
            first_stats(old(enemy_stats)@, TRICERAMON_ID, t) && first_tnt(original@, k) && first_stats(old(enemy_stats)@, final(modified)@[k].digimon_id as u16, s)
                ==> drops_exchanged(old(enemy_stats)@, final(enemy_stats)@, t, s),
        encounters_drawn(
            *preset,
            original@,
            old(modified)@,
            final(modified)@,
            draw_lists(id_copy@),
            id_final@,
            draw_tables(pool_copy@),
            draw_lists(pool_final@),
        ),
{
    let ghost p = *preset;
    let ghost cds = draw_lists(id_copy@);
    let ghost pcs = draw_tables(pool_copy@);
    let ghost pfs = draw_lists(pool_final@);
    let ids = open_id_list(original, preset);
    let possible = distinct_ids(&ids);
    let ghost nk = ids.len() as int;
    let ghost n = possible.len() as int;
    proof {
        possible@.unique_seq_to_set();
        assert(ids@.to_set().contains(ids@[0]));
        assert(possible@.to_set().contains(ids@[0]));
        assert(n >= 1);
        lemma_open_ids_prefix(original@, p, original.len() as int);
        assert(original@.take(original.len() as int) =~= original@);
        lemma_open_ids_prefix(original@, p, 0);
        lemma_open_ids_len(original@, p);
    }
    proof {
        assert(possible@.to_set() =~= open_ids(original@, p).to_set());
        assert(increasing(possible@) && possible@.to_set() == open_ids(original@, p).to_set());
        lemma_increasing_unique(possible@, sorted_open_ids(original@, p));
        assert(cds.len() == id_copy.len());
        assert(forall|c: int| 0 <= c < id_copy.len() ==> #[trigger] cds[c] == id_copy@[c]@);
        assert(possible.len() == open_ids(original@, p).to_set().len());
        assert forall|c: int| 0 <= c < id_copy.len() implies (#[trigger] id_copy@[c]).len() == 0 || possible.len() >= 2 by {
            assert(cds[c].len() == id_copy@[c].len());
        }
        assert(pcs.len() == pool_copy.len());
        assert(pfs.len() == pool_final.len());
    }
    let mut shuffled = uniform_random_vector_with_draws(&possible, ids.len(), id_copy, id_final);
    proof {
        lemma_each_letter_drawn(shuffled@, possible@, nk);
        assert(shuffled@ == id_vector(original@, p, cds, id_final@));
    }
    let ghost shuffled0 = shuffled@;
    let mut pools: Vec<Vec<EncounterData>> = Vec::new();
    let mut j: usize = 0;
    while j < possible.len()
        invariant
            j <= possible.len(),
            pools.len() == j,
            ids@ == open_ids(original@, p),
            possible@.to_set() == ids@.to_set(),
            original.len() <= usize::MAX / 2,
            nk == ids.len() <= original.len(),
            shuffled@.len() == nk,
            forall|x: u32| possible@.contains(x) ==> #[trigger] occurrences(shuffled@, x) >= 1,
            forall|q: int| 0 <= q < j ==> (#[trigger] pools@[q]).len() == occurrences(shuffled@, possible@[q]),
            forall|q: int, r: int|
                0 <= q < j && 0 <= r < pools@[q].len() ==> original@.contains(#[trigger] pools@[q]@[r])
                    && pools@[q]@[r].digimon_id == possible@[q],
            shuffled@ == shuffled0,
            possible@ == sorted_open_ids(original@, p),
            shuffled0 == id_vector(original@, p, cds, id_final@),
            cds == draw_lists(id_copy@),
            pcs == draw_tables(pool_copy@),
            pfs == draw_lists(pool_final@),
            encounter_draws_fit(original@, p, cds, id_final@, pcs, pfs),
            pool_copy.len() == possible.len(),
            pool_final.len() == possible.len(),
            forall|q: int| 0 <= q < j ==> (#[trigger] pools@[q])@ == encounter_vector(original@, possible@[q], shuffled0, pcs[q], pfs[q]),
            forall|q: int, v: EncounterData|
                #![trigger occurrences(pools@[q]@, v)]
                0 <= q < j && original@.contains(v) && v.digimon_id == possible@[q] ==> {
                    let copies = copies_drawn(
                        occurrences(shuffled0, possible@[q]) as int,
                        variant_count(original@, possible@[q]) as int,
                    );
                    copies - 1 <= occurrences(pools@[q]@, v) <= copies
                },
        decreases possible.len() - j,
    {
        let d = possible[j];
        let vars = variants(original, d);
        let count = count_of(&shuffled, d);
        proof {
            assert(possible@.contains(d));
            assert(possible@.to_set().contains(d));
            assert(ids@.contains(d));
            lemma_open_ids_members(original@, p, d);
            let i = choose|i: int| 0 <= i < original.len() && !skipped(#[trigger] original@[i], p) && original@[i].digimon_id == d;
            assert(original@.contains(original@[i]));
            assert(vars@.contains(original@[i]));
            assert(vars.len() >= 1);
            assert(vars@.to_set().subset_of(original@.to_set())) by {
                assert forall|e: EncounterData| vars@.to_set().contains(e) implies original@.to_set().contains(e) by {
                    assert(vars@.contains(e));
                }
            }
            vars@.unique_seq_to_set();
            vstd::set_lib::lemma_len_subset(vars@.to_set(), original@.to_set());
            original@.lemma_cardinality_of_set();
        }
        proof {
            lemma_variants_len(original@, vars@, d);
            assert(possible@[j as int] == d);
            assert(pcs[j as int] == draw_lists(pool_copy@[j as int]@));
            assert(pfs[j as int] == pool_final@[j as int]@);
            assert(pool_copy@[j as int].len() == pcs[j as int].len());
            assert(forall|c: int| 0 <= c < pool_copy@[j as int].len() ==> #[trigger] pcs[j as int][c] == pool_copy@[j as int]@[c]@);
            assert(sorted_open_ids(original@, p)[j as int] == d);
            assert(count == occurrences(id_vector(original@, p, cds, id_final@), d));
            assert forall|c: int| 0 <= c < pool_copy@[j as int].len() implies (#[trigger] pool_copy@[j as int]@[c]).len() == 0
                || vars.len() >= 2 by {
                assert(pcs[j as int][c].len() == pool_copy@[j as int]@[c].len());
            }
        }
        let pool = uniform_random_vector_with_draws(&vars, count, &pool_copy[j], &pool_final[j]);
        proof {
            assert forall|v: EncounterData| original@.contains(v) && v.digimon_id == d implies {
                let copies = copies_drawn(occurrences(shuffled0, d) as int, variant_count(original@, d) as int);
                copies - 1 <= #[trigger] occurrences(pool@, v) <= copies
            } by {
                assert(vars@.contains(v));
                vars@.lemma_multiset_has_no_duplicates();
                assert(occurrences(vars@, v) == 1);
            }
        }
        let ghost before_pools = pools@;
        pools.push(pool);
        proof {
            assert forall|q: int| 0 <= q < j + 1 implies (#[trigger] pools@[q])@ == encounter_vector(original@, possible@[q], shuffled0, pcs[q], pfs[q]) by {
                if q < j {
                    assert(pools@[q] == before_pools[q]);
                }
            }
            assert forall|q: int, v: EncounterData|
                #![trigger occurrences(pools@[q]@, v)]
                0 <= q < j + 1 && original@.contains(v) && v.digimon_id == possible@[q] implies {
                    let copies = copies_drawn(
                        occurrences(shuffled0, possible@[q]) as int,
                        variant_count(original@, possible@[q]) as int,
                    );
                    copies - 1 <= occurrences(pools@[q]@, v) <= copies
                } by {
                if q < j {
                    assert(pools@[q] == before_pools[q]);
                }
            }
        }
        proof {
            assert forall|q: int, r: int|
                0 <= q < j + 1 && 0 <= r < pools@[q].len() implies original@.contains(#[trigger] pools@[q]@[r])
                    && pools@[q]@[r].digimon_id == possible@[q] by {
                if q == j {
                    assert(vars@.contains(pools@[q]@[r]));
                }
            }
        }
        j += 1;
    }
    proof {
        assert forall|x: u32| #[trigger] possible@.contains(x) <==> open_ids(original@, p).contains(x) by {
            assert(possible@.contains(x) <==> possible@.to_set().contains(x));
            assert(ids@.contains(x) <==> ids@.to_set().contains(x));
        }
    }
    let ghost mut drawn: Seq<u32> = Seq::empty();
    let ghost pools0: Seq<Seq<EncounterData>> = Seq::new(pools.len() as nat, |q: int| pools@[q]@);
    let ghost mut placed_g: Seq<EncounterData> = Seq::empty();
    proof {
        assert(n == open_ids(original@, p).to_set().len());
        assert forall|q: int, v: EncounterData|
            #![trigger occurrences(pools0[q], v)]
            0 <= q < pools0.len() && original@.contains(v) && v.digimon_id == possible@[q] implies {
                let copies = copies_drawn(
                    occurrences(shuffled0, possible@[q]) as int,
                    variant_count(original@, possible@[q]) as int,
                );
                copies - 1 <= occurrences(pools0[q], v) <= copies
            } by {
            assert(occurrences(pools@[q]@, v) == occurrences(pools0[q], v));
        }
        assert forall|q: int| 0 <= q < pools.len() implies (#[trigger] pools@[q])@ == pools0[q].take(pools@[q].len() as int) by {
            assert(pools0[q].take(pools@[q].len() as int) =~= pools0[q]);
        }
        assert(shuffled0.take(shuffled.len() as int) =~= shuffled0);
    }
    let mut i: usize = 0;
    while i < modified.len()
        invariant
            p == *preset,
            shuffled0.len() == nk,
            shuffled@ == shuffled0.take(shuffled.len() as int),
            drawn.len() + shuffled.len() == nk,
            forall|q: int| 0 <= q < pools.len() ==> (#[trigger] pools@[q])@ == pools0[q].take(pools@[q].len() as int),
            forall|q: int| 0 <= q < pools0.len() ==> (#[trigger] pools0[q]).len() == occurrences(shuffled0, possible@[q]),
            forall|q: int| 0 <= q < pools0.len() ==> #[trigger] pools0[q] == encounter_vector(original@, possible@[q], shuffled0, pcs[q], pfs[q]),
            possible@ == sorted_open_ids(original@, p),
            shuffled0 == id_vector(original@, p, cds, id_final@),
            placed_g.len() == drawn.len(),
            forall|jj: int| 0 <= jj < drawn.len() ==> #[trigger] drawn[jj] == shuffled0[nk - 1 - jj],
            forall|jj: int| 0 <= jj < drawn.len() ==> #[trigger] placed_at(possible@, pools0, drawn, placed_g, jj),
            n == possible.len() == open_ids(original@, p).to_set().len(),
            nk == open_ids(original@, p).len(),
            forall|x: u32|
                #![trigger occurrences(shuffled0, x)]
                (copies_drawn(nk, n) - 1) * occurrences(possible@, x) <= occurrences(shuffled0, x)
                    <= copies_drawn(nk, n) * occurrences(possible@, x),
            i <= modified.len(),
            modified.len() == old(modified).len(),
            possible@.no_duplicates(),
            forall|x: u32| #[trigger] possible@.contains(x) <==> open_ids(original@, p).contains(x),
            pools.len() == possible.len(),
            forall|q: int| i <= q < modified.len() ==> #[trigger] modified@[q] == old(modified)@[q],
            forall|q: int| 0 <= q < i && skipped(#[trigger] old(modified)@[q], p) ==> modified@[q] == old(modified)@[q],
            forall|q: int| 0 <= q < i && !skipped(#[trigger] old(modified)@[q], p) ==>
                original@.contains(modified@[q]) && possible@.contains(modified@[q].digimon_id),
            drawn == drawn_ids(old(modified)@.take(i as int), modified@.take(i as int), p),
            forall|x: u32|
                #![trigger occurrences(shuffled@, x)]
                occurrences(drawn, x) + occurrences(shuffled@, x) == occurrences(shuffled0, x),
            shuffled.len() + open_ids(old(modified)@.take(i as int), p).len() == nk,
            open_ids(old(modified)@, p).len() <= nk,
            forall|k: int| 0 <= k < shuffled.len() ==> possible@.contains(#[trigger] shuffled@[k]),
            forall|q: int| 0 <= q < pools.len() ==> (#[trigger] pools@[q]).len() == occurrences(shuffled@, possible@[q]),
            forall|q: int, r: int|
                0 <= q < pools.len() && 0 <= r < pools@[q].len() ==> original@.contains(#[trigger] pools@[q]@[r])
                    && pools@[q]@[r].digimon_id == possible@[q],
            pools0.len() == pools.len(),
            forall|q: int, v: EncounterData|
                #![trigger occurrences(pools0[q], v)]
                0 <= q < pools0.len() && original@.contains(v) && v.digimon_id == possible@[q] ==> {
                    let copies = copies_drawn(
                        occurrences(shuffled0, possible@[q]) as int,
                        variant_count(original@, possible@[q]) as int,
                    );
                    copies - 1 <= occurrences(pools0[q], v) <= copies
                },
            placed_g == placed(old(modified)@.take(i as int), modified@.take(i as int), p),
            forall|q: int, v: EncounterData|
                #![trigger occurrences(pools@[q]@, v)]
                0 <= q < pools.len() && v.digimon_id == possible@[q] ==> occurrences(placed_g, v) + occurrences(
                    pools@[q]@,
                    v,
                ) == occurrences(pools0[q], v),
        decreases modified.len() - i,
    {
        let ghost before = modified@;
        assert(old(modified)@.take(i + 1).drop_last() =~= old(modified)@.take(i as int));
        assert(modified@[i as int] == old(modified)@[i as int]);
        if !skip(&modified[i], preset) {
            proof {
                lemma_open_ids_prefix(old(modified)@, p, i + 1);
            }
            let ghost s_before = shuffled@;
            proof {
                let t1 = old(modified)@.take(i + 1);
                assert(t1.last() == old(modified)@[i as int]);
                assert(!skipped(old(modified)@[i as int], p));
                assert(t1.drop_last() =~= old(modified)@.take(i as int));
                assert(open_ids(t1, p).len() == open_ids(old(modified)@.take(i as int), p).len() + 1);
                assert(shuffled.len() > 0);
                assert(possible@.contains(s_before[s_before.len() - 1]));
            }
            let d = shuffled.pop().unwrap();
            proof {
                assert(s_before =~= shuffled@.push(d));
                assert(s_before[s_before.len() - 1] == d);
                assert(possible@.contains(d));
            }
            let jd = position_of_id(&possible, d);
            proof {
                assert(occurrences(s_before, d) >= 1);
                assert forall|x: u32| #![trigger occurrences(shuffled@, x)]
                    occurrences(shuffled@, x) == occurrences(s_before, x) - (if x == d { 1int } else { 0int }) by {}
            }
            let ghost pools_before = pools@;
            let e = pools[jd].pop().unwrap();
            proof {
                assert(original@.contains(e) && e.digimon_id == d);
                assert(pools_before[jd as int]@ =~= pools@[jd as int]@.push(e));
                assert forall|q: int, v: EncounterData|
                    #![trigger occurrences(pools@[q]@, v)]
                    0 <= q < pools.len() && v.digimon_id == possible@[q] implies occurrences(placed_g.push(e), v)
                        + occurrences(pools@[q]@, v) == occurrences(pools0[q], v) by {
                    assert(occurrences(placed_g, v) + occurrences(pools_before[q]@, v) == occurrences(pools0[q], v));
                    if q != jd {
                        assert(pools@[q] == pools_before[q]);
                        assert(possible@[q] != d);
                        assert(v != e);
                    }
                }
            }
            proof {
                let lb = pools_before[jd as int].len() as int;
                assert(pools_before[jd as int]@ == pools0[jd as int].take(lb));
                assert(e == pools0[jd as int][lb - 1]);
                assert(pools@[jd as int]@ =~= pools0[jd as int].take(lb - 1));
                assert(lb == occurrences(s_before, d));
                assert(occurrences(drawn, d) + occurrences(s_before, d) == occurrences(shuffled0, d));
                assert(d == shuffled0[s_before.len() - 1]);
                assert(shuffled@ =~= shuffled0.take(shuffled.len() as int));
                assert forall|q: int| 0 <= q < pools.len() implies (#[trigger] pools@[q])@ == pools0[q].take(pools@[q].len() as int) by {
                    if q != jd {
                        assert(pools@[q] == pools_before[q]);
                    }
                }
            }
            let ghost d_old = drawn;
            let ghost p_old = placed_g;
            modified.set(i, e);
            proof {
                drawn = drawn.push(d);
                placed_g = placed_g.push(e);
                let dn = drawn;
                let pn = placed_g;
                assert(dn.take(d_old.len() as int) =~= d_old);
                assert forall|jj: int| 0 <= jj < dn.len() implies #[trigger] placed_at(possible@, pools0, dn, pn, jj) by {
                    if jj < d_old.len() {
                        assert(dn.take(jj) =~= d_old.take(jj));
                        assert(pn[jj] == p_old[jj]);
                        assert(dn[jj] == d_old[jj]);
                        assert(placed_at(possible@, pools0, d_old, p_old, jj));
                        let q = choose|q: int|
                            0 <= q < possible@.len() && possible@[q] == d_old[jj] && p_old[jj] == pools0[q][pools0[q].len() - 1
                                - occurrences(d_old.take(jj), d_old[jj])];
                        assert(0 <= q < possible@.len() && possible@[q] == dn[jj] && pn[jj] == pools0[q][pools0[q].len() - 1
                            - occurrences(dn.take(jj), dn[jj])]);
                    } else {
                        assert(dn.take(jj) =~= d_old);
                        assert(possible@[jd as int] == dn[jj]);
                        assert(pools0[jd as int].len() == occurrences(shuffled0, possible@[jd as int]));
                        assert(0 <= jd < possible@.len() && possible@[jd as int] == dn[jj] && pn[jj] == pools0[jd as int][pools0[jd as int].len() - 1
                            - occurrences(dn.take(jj), dn[jj])]);
                    }
                }

                assert(modified@.take(i + 1).take(i as int) =~= before.take(i as int));
                assert forall|q: int| 0 <= q < i + 1 && !skipped(#[trigger] old(modified)@[q], p) implies
                    original@.contains(modified@[q]) && possible@.contains(modified@[q].digimon_id) by {
                    if q < i {
                        assert(modified@[q] == before[q]);
                    }
                }
                assert forall|q: int| 0 <= q < pools.len() implies (#[trigger] pools@[q]).len() == occurrences(shuffled@, possible@[q]) by {
                    if q != jd {
                        assert(possible@[q] != d);
                    }
                }
                assert forall|k: int| 0 <= k < shuffled.len() implies possible@.contains(#[trigger] shuffled@[k]) by {
                    assert(shuffled@[k] == s_before[k]);
                }
            }
        } else {
            proof {
                assert(modified@.take(i + 1).take(i as int) =~= modified@.take(i as int));
            }
        }
        i += 1;
    }
    proof {
        assert(old(modified)@.take(i as int) =~= old(modified)@);
        assert(modified@.take(i as int) =~= modified@);
        possible@.lemma_multiset_has_no_duplicates();
        lemma_id_balance(original@, p, possible@, shuffled0, shuffled@, drawn, nk, n);
        assert(placed_g == placed(old(modified)@, modified@, p));
        assert(drawn == drawn_ids(old(modified)@, modified@, p));
        assert forall|jj: int| 0 <= jj < drawn.len() implies {
            &&& #[trigger] drawn[jj] == shuffled0[nk - 1 - jj]
            &&& exists|q: int|
                0 <= q < sorted_open_ids(original@, p).len() && sorted_open_ids(original@, p)[q] == drawn[jj] && {
                    let v = encounter_vector(original@, drawn[jj], shuffled0, pcs[q], pfs[q]);
                    placed_g[jj] == v[v.len() - 1 - occurrences(drawn.take(jj), drawn[jj])]
                }
        } by {
            assert(placed_at(possible@, pools0, drawn, placed_g, jj));
            let q = choose|q: int|
                0 <= q < possible@.len() && possible@[q] == drawn[jj] && placed_g[jj] == pools0[q][pools0[q].len() - 1
                    - occurrences(drawn.take(jj), drawn[jj])];
            assert(pools0[q] == encounter_vector(original@, possible@[q], shuffled0, pcs[q], pfs[q]));
        }
        assert(encounters_drawn(p, original@, old(modified)@, modified@, cds, id_final@, pcs, pfs));
        if open_ids(old(modified)@, p).len() == nk {
            assert(shuffled@.len() == 0);
            assert forall|x: u32| #[trigger] occurrences(shuffled@, x) == 0 by {
                assert(shuffled@ =~= Seq::<u32>::empty());
            }
            assert forall|v: EncounterData| original@.contains(v) && open_ids(original@, p).contains(v.digimon_id) implies {
                let copies = copies_drawn(occurrences(drawn, v.digimon_id) as int, variant_count(original@, v.digimon_id) as int);
                copies - 1 <= #[trigger] occurrences(placed_g, v) <= copies
            } by {
                let d = v.digimon_id;
                assert(possible@.contains(d));
                let q = choose|q: int| 0 <= q < possible.len() && possible@[q] == d;
                assert(occurrences(shuffled@, d) == 0);
                assert(pools@[q].len() == 0);
                assert(pools@[q]@ =~= Seq::<EncounterData>::empty());
                assert(occurrences(pools@[q]@, v) == 0);
                assert(occurrences(placed_g, v) + occurrences(pools@[q]@, v) == occurrences(pools0[q], v));
                assert(occurrences(drawn, d) + occurrences(shuffled@, d) == occurrences(shuffled0, d));
            }
        }
    }
    proof {
        if preset.keep_galacticmon {
            assert forall|i: int|
                0 <= i < old(modified).len() && (old(modified)@[i].digimon_id == 0x1ba || old(modified)@[i].digimon_id == 0x1d2
                    || old(modified)@[i].digimon_id == 0x1d3) implies #[trigger] modified@[i] == old(modified)@[i] by {
                lemma_galacticmon_kept(old(modified)@[i], *preset);
            }
        }
    }
    if preset.strategy == TNTStrategy::Swap {
        let t = find_stats(enemy_stats, TRICERAMON_ID);
        let k = find_tnt(original);
        proof {
            let w = choose|w: int| 0 <= w < original.len() && w < old(modified).len() && tnt_triceramon(#[trigger] original@[w]);
            assert(k <= w);
            if skipped(old(modified)@[k as int], p) {
                assert(modified@[k as int] == old(modified)@[k as int]);
            } else {
                let id = modified@[k as int].digimon_id;
                assert(open_ids(original@, p).contains(id));
                lemma_open_ids_members(original@, p, id);
                let v = choose|v: int| 0 <= v < original.len() && !skipped(#[trigger] original@[v], p) && original@[v].digimon_id == id;
                assert(has_stats(old(enemy_stats)@, original@[v].digimon_id as u16));
            }
        }
        let s = find_stats(enemy_stats, modified[k].digimon_id as u16);
        let ghost before_stats = enemy_stats@;
        exchange_drops(enemy_stats, t, s);
        proof {
            assert forall|t2: int, k2: int, s2: int|
                #![trigger first_stats(old(enemy_stats)@, TRICERAMON_ID, t2), first_tnt(original@, k2), first_stats(old(enemy_stats)@, modified@[k2].digimon_id as u16, s2)]
                first_stats(old(enemy_stats)@, TRICERAMON_ID, t2) && first_tnt(original@, k2) && first_stats(old(enemy_stats)@, modified@[k2].digimon_id as u16, s2)
                    implies drops_exchanged(old(enemy_stats)@, enemy_stats@, t2, s2) by {
                lemma_first_stats_unique(before_stats, TRICERAMON_ID, t as int, t2);
                lemma_first_tnt_unique(original@, k as int, k2);
                lemma_first_stats_unique(before_stats, modified@[k as int].digimon_id as u16, s as int, s2);
            }
        }
    }
}

/// Shuffles the encounters as `patch_with_draws` does, with the draws
/// taken from the generator in the order the shuffle uses them: those of
/// the vector of identifiers first (`uniform_draws`), then, for each
/// identifier in increasing order, those of its encounters' vector.
#[verifier::spinoff_prover]
#[verifier::rlimit(40)]
pub fn patch(
    preset: &Encounters,
    shuffles: u8,
    original: &Vec<EncounterData>,
    modified: &mut Vec<EncounterData>,
    enemy_stats: &mut Vec<EnemyStats>,
    rng: &mut Xoshiro256StarStar,
)
    requires
        original.len() <= usize::MAX / 2,
        open_ids(original@, *preset).len() >= 1,
        open_ids(old(modified)@, *preset).len() <= open_ids(original@, *preset).len(),
        preset.strategy == TNTStrategy::Swap ==> {
            &&& has_stats(old(enemy_stats)@, TRICERAMON_ID)
            &&& exists|k: int| 0 <= k < original.len() && k < old(modified).len() && tnt_triceramon(#[trigger] original@[k])
            &&& forall|k: int| first_tnt(original@, k) ==> has_stats(old(enemy_stats)@, old(modified)@[k].digimon_id as u16)
            &&& forall|k: int| 0 <= k < original.len() && !skipped(#[trigger] original@[k], *preset) ==> has_stats(old(enemy_stats)@, original@[k].digimon_id as u16)
        },
    ensures
        encounters_shuffled(*preset, original@, old(modified)@, final(modified)@),
        preset.keep_galacticmon ==> forall|i: int|
            0 <= i < old(modified).len() && (old(modified)@[i].digimon_id == 0x1ba || old(modified)@[i].digimon_id == 0x1d2
                || old(modified)@[i].digimon_id == 0x1d3) ==> #[trigger] final(modified)@[i] == old(modified)@[i],
        preset.strategy != TNTStrategy::Swap ==> final(enemy_stats)@ == old(enemy_stats)@,
        preset.strategy == TNTStrategy::Swap ==> forall|t: int, k: int, s: int|
            #![trigger first_stats(old(enemy_stats)@, TRICERAMON_ID, t), first_tnt(original@, k), first_stats(old(enemy_stats)@, final(modified)@[k].digimon_id as u16, s)]
            first_stats(old(enemy_stats)@, TRICERAMON_ID, t) && first_tnt(original@, k) && first_stats(old(enemy_stats)@, final(modified)@[k].digimon_id as u16, s)
                ==> drops_exchanged(old(enemy_stats)@, final(enemy_stats)@, t, s),
        exists|id_copy: Seq<Seq<usize>>, id_final: Seq<usize>, pool_copy: Seq<Seq<Seq<usize>>>, pool_final: Seq<Seq<usize>>|
            #![trigger encounters_drawn(*preset, original@, old(modified)@, final(modified)@, id_copy, id_final, pool_copy, pool_final)]
            {
                &&& encounter_draws_fit(original@, *preset, id_copy, id_final, pool_copy, pool_final)
                &&& encounters_drawn(*preset, original@, old(modified)@, final(modified)@, id_copy, id_final, pool_copy, pool_final)
            },
{
    let ghost p = *preset;
    let ids = open_id_list(original, preset);
    let possible = distinct_ids(&ids);
    let ghost nk = ids.len() as int;
    let ghost n = possible.len() as int;
    proof {
        possible@.unique_seq_to_set();
        assert(ids@.to_set().contains(ids@[0]));
        assert(possible@.to_set().contains(ids@[0]));
        lemma_open_ids_prefix(original@, p, original.len() as int);
        assert(original@.take(original.len() as int) =~= original@);
        lemma_open_ids_len(original@, p);
        assert(possible@.to_set() =~= open_ids(original@, p).to_set());
        lemma_increasing_unique(possible@, sorted_open_ids(original@, p));
    }
    let (id_copy, id_final) = uniform_draws(possible.len(), ids.len(), shuffles, rng);
    let idv = uniform_random_vector_with_draws(&possible, ids.len(), &id_copy, &id_final);
    proof {
        lemma_each_letter_drawn(idv@, possible@, nk);
    }
    let mut pool_copy: Vec<Vec<Vec<usize>>> = Vec::new();
    let mut pool_final: Vec<Vec<usize>> = Vec::new();
    let mut j: usize = 0;
    while j < possible.len()
        invariant
            j <= possible.len(),
            pool_copy.len() == j,
            pool_final.len() == j,
            ids@ == open_ids(original@, p),
            possible@.to_set() == ids@.to_set(),
            possible@ == sorted_open_ids(original@, p),
            original.len() <= usize::MAX / 2,
            nk == ids.len() <= original.len(),
            idv@.len() == nk,
            forall|x: u32| possible@.contains(x) ==> #[trigger] occurrences(idv@, x) >= 1,
            forall|q: int|
                0 <= q < j ==> {
                    let d = possible@[q];
                    &&& (#[trigger] pool_copy@[q]).len() == copies_drawn(occurrences(idv@, d) as int, variant_count(original@, d) as int)
                    &&& forall|c: int| 0 <= c < pool_copy@[q].len() ==> (#[trigger] pool_copy@[q]@[c]).len() == 0 || variant_count(original@, d) >= 2
                    &&& pool_final@[q].len() == 0 || occurrences(idv@, d) >= 2
                },
        decreases possible.len() - j,
    {
        let d = possible[j];
        let vars = variants(original, d);
        let count = count_of(&idv, d);
        proof {
            assert(possible@.contains(d));
            assert(possible@.to_set().contains(d));
            assert(ids@.contains(d));
            lemma_open_ids_members(original@, p, d);
            let i = choose|i: int| 0 <= i < original.len() && !skipped(#[trigger] original@[i], p) && original@[i].digimon_id == d;
            assert(original@.contains(original@[i]));
            assert(vars@.contains(original@[i]));
            lemma_variants_len(original@, vars@, d);
        }
        let (c, f) = uniform_draws(vars.len(), count, shuffles, rng);
        pool_copy.push(c);
        pool_final.push(f);
        j += 1;
    }
    proof {
        let cds = draw_lists(id_copy@);
        assert(forall|c: int| 0 <= c < cds.len() ==> #[trigger] cds[c] == id_copy@[c]@);
        assert(idv@ == id_vector(original@, p, cds, id_final@));
        let pcs = draw_tables(pool_copy@);
        let pfs = draw_lists(pool_final@);
        assert forall|q: int| 0 <= q < n implies {
            let d = sorted_open_ids(original@, p)[q];
            &&& (#[trigger] pcs[q]).len() == copies_drawn(occurrences(idv@, d) as int, variant_count(original@, d) as int)
            &&& forall|c: int| 0 <= c < pcs[q].len() ==> (#[trigger] pcs[q][c]).len() == 0 || variant_count(original@, d) >= 2
            &&& pfs[q].len() == 0 || occurrences(idv@, d) >= 2
        } by {
            assert(pcs[q] == draw_lists(pool_copy@[q]@));
            assert(forall|c: int| 0 <= c < pcs[q].len() ==> #[trigger] pcs[q][c] == pool_copy@[q]@[c]@);
        }
        assert(encounter_draws_fit(original@, p, cds, id_final@, pcs, pfs));
    }
    patch_with_draws(preset, original, modified, enemy_stats, &id_copy, &id_final, &pool_copy, &pool_final);
}

/// There is only one first record of a Digimon.
proof fn lemma_first_stats_unique(stats: Seq<EnemyStats>, id: u16, a: int, b: int)
    requires
        first_stats(stats, id, a),
        first_stats(stats, id, b),
    ensures
        a == b,
{
    if a < b {
        assert(stats[a].digimon_id != id);
    } else if b < a {
        assert(stats[b].digimon_id != id);
    }
}

/// There is only one first level 6 Triceramon.
proof fn lemma_first_tnt_unique(s: Seq<EncounterData>, a: int, b: int)
    requires
        first_tnt(s, a),
        first_tnt(s, b),
    ensures
        a == b,
{
    if a < b {
        assert(!tnt_triceramon(s[a]));
    } else if b < a {
        assert(!tnt_triceramon(s[b]));
    }
}

} // verus!
