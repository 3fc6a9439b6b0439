//! The item box randomizer: every item box's first item-giving script
//! step, in each piece of its logic, is given an item drawn from a pool.

use crate::entities::{
    adds_item, boxes_fit, entities_fit, first_logic, is_item_box, logic_fits, logic_index, step_index, step_type,
    steps_base, Entity, EntityLogic, MapEntities, ScriptStep,
};
use crate::json::ShopItems;
use crate::rng::next_u64;
use crate::shops::{is_shoppable, shoppable, shoppable_count};
use crate::structs::ItemShopData;
use crate::text::{frame_with_name, framed};
use crate::util::strictly_increasing;
use rand_xoshiro::Xoshiro256StarStar;
use vstd::prelude::*;

verus! {

/// The first step from `k` on, before the step that ends the script, that
/// gives an item.
pub open spec fn first_add(ss: Seq<ScriptStep>, k: int) -> Option<int>
    decreases ss.len() - k,
{
    if k < 0 || k >= ss.len() || ss[k].last_step {
        None
    } else if adds_item(step_type(ss[k])) {
        Some(k)
    } else {
        first_add(ss, k + 1)
    }
}

/// The step made to give `item`: the item in the low bits, the upper bits
/// of the step kept.
pub open spec fn with_item(s: ScriptStep, item: u16) -> ScriptStep {
    ScriptStep { bitfield: item | ((s.bitfield >> 9u16) << 9u16), ..s }
}

/// The item of the pool that draw `d` picks.
pub open spec fn pool_item(pool: Seq<u16>, d: u64) -> u16 {
    pool[(d as int) % (pool.len() as int)]
}

/// Draw `c`, or 0 past the end of the draws.
pub open spec fn draw_at(draws: Seq<u64>, c: int) -> u64 {
    if 0 <= c < draws.len() {
        draws[c]
    } else {
        0
    }
}

/// What placing items leaves: the steps, the number of draws used so
/// far, and the placements made, as (map, logic, item).
pub type Placement = (Seq<ScriptStep>, int, Seq<(usize, usize, u16)>);

/// Placing items in the logic from `j` on, up to the first logic that
/// shows no text: in each logic that runs a script, the first step that
/// gives an item gets the item of the next draw.
pub open spec fn place_logics(
    ls: Seq<EntityLogic>,
    ss: Seq<ScriptStep>,
    j: int,
    base: u32,
    pool: Seq<u16>,
    draws: Seq<u64>,
    c: int,
    map: usize,
) -> Placement
    decreases ls.len() - j,
{
    if j < 0 || j >= ls.len() || ls[j].text_index == 0 {
        (ss, c, Seq::empty())
    } else if ls[j].script.value == 0 {
        place_logics(ls, ss, j + 1, base, pool, draws, c, map)
    } else {
        match first_add(ss, step_index(ls[j].script, base)) {
            None => place_logics(ls, ss, j + 1, base, pool, draws, c, map),
            Some(k) => {
                let item = pool_item(pool, draw_at(draws, c));
                let r = place_logics(ls, ss.update(k, with_item(ss[k], item)), j + 1, base, pool, draws, c + 1, map);
                (r.0, r.1, seq![(map, j as usize, item)] + r.2)
            },
        }
    }
}

/// Placing items for the item boxes among the entities from `i` on, in
/// order, each from the logic it points to.
pub open spec fn place_entities(
    es: Seq<Entity>,
    ls: Seq<EntityLogic>,
    ss: Seq<ScriptStep>,
    i: int,
    first: u32,
    base: u32,
    sprites: Seq<u16>,
    pool: Seq<u16>,
    draws: Seq<u64>,
    c: int,
    map: usize,
) -> Placement
    decreases es.len() - i,
{
    if i < 0 || i >= es.len() {
        (ss, c, Seq::empty())
    } else if is_item_box(es[i], sprites) {
        let r1 = place_logics(ls, ss, logic_index(es[i].logic, first), base, pool, draws, c, map);
        let r2 = place_entities(es, ls, r1.0, i + 1, first, base, sprites, pool, draws, r1.1, map);
        (r2.0, r2.1, r1.2 + r2.2)
    } else {
        place_entities(es, ls, ss, i + 1, first, base, sprites, pool, draws, c, map)
    }
}

/// Placing items in the item boxes of map number `map`.
pub open spec fn place_map(
    m: MapEntities,
    sprites: Seq<u16>,
    pool: Seq<u16>,
    draws: Seq<u64>,
    c: int,
    map: usize,
) -> Placement {
    match (first_logic(m.entities@, 0), steps_base(m.entity_logics@, 0)) {
        (Some(first), Some(base)) => place_entities(
            m.entities@,
            m.entity_logics@,
            m.scripts_conditions@,
            0,
            first,
            base,
            sprites,
            pool,
            draws,
            c,
            map,
        ),
        _ => (m.scripts_conditions@, c, Seq::empty()),
    }
}

/// The steps of the maps from `n` on after placing, the number of draws
/// used, and the placements, map after map.
pub open spec fn place_maps(
    maps: Seq<MapEntities>,
    n: int,
    sprites: Seq<u16>,
    pool: Seq<u16>,
    draws: Seq<u64>,
    c: int,
) -> (Seq<Seq<ScriptStep>>, int, Seq<(usize, usize, u16)>)
    decreases maps.len() - n,
{
    if n < 0 || n >= maps.len() {
        (Seq::empty(), c, Seq::empty())
    } else {
        let r1 = place_map(maps[n], sprites, pool, draws, c, n as usize);
        let r2 = place_maps(maps, n + 1, sprites, pool, draws, r1.1);
        (seq![r1.0] + r2.0, r2.1, r1.2 + r2.2)
    }
}

/// Whether the logic from `j` on fits depends on the steps only through
/// their number.
proof fn lemma_logic_fits_len(ls: Seq<EntityLogic>, s1: Seq<ScriptStep>, s2: Seq<ScriptStep>, j: int, base: u32)
    requires
        s1.len() == s2.len(),
    ensures
        logic_fits(ls, s1, j, base) == logic_fits(ls, s2, j, base),
    decreases ls.len() - j,
{
    if 0 <= j < ls.len() && ls[j].text_index != 0 {
        lemma_logic_fits_len(ls, s1, s2, j + 1, base);
    }
}

/// Whether the entities from `i` on fit depends on the steps only through
/// their number.
proof fn lemma_entities_fit_len(m1: MapEntities, m2: MapEntities, i: int, first: u32, base: u32, sprites: Seq<u16>)
    requires
        m1.entities@ == m2.entities@,
        m1.entity_logics@ == m2.entity_logics@,
        m1.scripts_conditions.len() == m2.scripts_conditions.len(),
    ensures
        entities_fit(m1, i, first, base, sprites) == entities_fit(m2, i, first, base, sprites),
    decreases m1.entities.len() - i,
{
    if 0 <= i < m1.entities.len() {
        lemma_entities_fit_len(m1, m2, i + 1, first, base, sprites);
        if is_item_box(m1.entities@[i], sprites) {
            lemma_logic_fits_len(
                m1.entity_logics@,
                m1.scripts_conditions@,
                m2.scripts_conditions@,
                logic_index(m1.entities@[i].logic, first),
                base,
            );
        }
    }
}

/// Placing in the logic uses draws from `c` on only: two lists of draws
/// that agree on all the draws one of them has give the same placement,
/// when that one has all the draws used.
proof fn lemma_logics_prefix(
    ls: Seq<EntityLogic>,
    ss: Seq<ScriptStep>,
    j: int,
    base: u32,
    pool: Seq<u16>,
    d1: Seq<u64>,
    d2: Seq<u64>,
    c: int,
    map: usize,
)
    requires
        d1.len() <= d2.len(),
        forall|q: int| 0 <= q < d1.len() ==> d2[q] == d1[q],
        place_logics(ls, ss, j, base, pool, d1, c, map).1 <= d1.len(),
    ensures
        place_logics(ls, ss, j, base, pool, d1, c, map) == place_logics(ls, ss, j, base, pool, d2, c, map),
        place_logics(ls, ss, j, base, pool, d1, c, map).1 >= c,
    decreases ls.len() - j,
{
    if j < 0 || j >= ls.len() || ls[j].text_index == 0 {
    } else if ls[j].script.value == 0 {
        lemma_logics_prefix(ls, ss, j + 1, base, pool, d1, d2, c, map);
    } else {
        match first_add(ss, step_index(ls[j].script, base)) {
            None => {
                lemma_logics_prefix(ls, ss, j + 1, base, pool, d1, d2, c, map);
            },
            Some(k) => {
                let item = pool_item(pool, draw_at(d1, c));
                lemma_logics_prefix(ls, ss.update(k, with_item(ss[k], item)), j + 1, base, pool, d1, d2, c + 1, map);
                assert(draw_at(d1, c) == draw_at(d2, c));
            },
        }
    }
}

/// Placing for the entities uses draws from `c` on only, as
/// `lemma_logics_prefix` says of the logic.
proof fn lemma_entities_prefix(
    es: Seq<Entity>,
    ls: Seq<EntityLogic>,
    ss: Seq<ScriptStep>,
    i: int,
    first: u32,
    base: u32,
    sprites: Seq<u16>,
    pool: Seq<u16>,
    d1: Seq<u64>,
    d2: Seq<u64>,
    c: int,
    map: usize,
)
    requires
        d1.len() <= d2.len(),
        forall|q: int| 0 <= q < d1.len() ==> d2[q] == d1[q],
        place_entities(es, ls, ss, i, first, base, sprites, pool, d1, c, map).1 <= d1.len(),
    ensures
        place_entities(es, ls, ss, i, first, base, sprites, pool, d1, c, map) == place_entities(
            es,
            ls,
            ss,
            i,
            first,
            base,
            sprites,
            pool,
            d2,
            c,
            map,
        ),
        place_entities(es, ls, ss, i, first, base, sprites, pool, d1, c, map).1 >= c,
    decreases es.len() - i,
{
    if i < 0 || i >= es.len() {
    } else if is_item_box(es[i], sprites) {
        let r1 = place_logics(ls, ss, logic_index(es[i].logic, first), base, pool, d1, c, map);
        lemma_entities_prefix(es, ls, r1.0, i + 1, first, base, sprites, pool, d1, d2, r1.1, map);
        lemma_entities_count(es, ls, r1.0, i + 1, first, base, sprites, pool, d1, r1.1, map);
        lemma_logics_prefix(ls, ss, logic_index(es[i].logic, first), base, pool, d1, d2, c, map);
    } else {
        lemma_entities_prefix(es, ls, ss, i + 1, first, base, sprites, pool, d1, d2, c, map);
    }
}

/// Placing never gives back draws: the count of draws used only grows.
proof fn lemma_logics_count(
    ls: Seq<EntityLogic>,
    ss: Seq<ScriptStep>,
    j: int,
    base: u32,
    pool: Seq<u16>,
    d: Seq<u64>,
    c: int,
    map: usize,
)
    ensures
        place_logics(ls, ss, j, base, pool, d, c, map).1 >= c,
    decreases ls.len() - j,
{
    if j < 0 || j >= ls.len() || ls[j].text_index == 0 {
    } else if ls[j].script.value == 0 {
        lemma_logics_count(ls, ss, j + 1, base, pool, d, c, map);
    } else {
        match first_add(ss, step_index(ls[j].script, base)) {
            None => {
                lemma_logics_count(ls, ss, j + 1, base, pool, d, c, map);
            },
            Some(k) => {
                let item = pool_item(pool, draw_at(d, c));
                lemma_logics_count(ls, ss.update(k, with_item(ss[k], item)), j + 1, base, pool, d, c + 1, map);
            },
        }
    }
}

/// The count of draws used for the entities only grows.
proof fn lemma_entities_count(
    es: Seq<Entity>,
    ls: Seq<EntityLogic>,
    ss: Seq<ScriptStep>,
    i: int,
    first: u32,
    base: u32,
    sprites: Seq<u16>,
    pool: Seq<u16>,
    d: Seq<u64>,
    c: int,
    map: usize,
)
    ensures
        place_entities(es, ls, ss, i, first, base, sprites, pool, d, c, map).1 >= c,
    decreases es.len() - i,
{
    if i < 0 || i >= es.len() {
    } else if is_item_box(es[i], sprites) {
        let r1 = place_logics(ls, ss, logic_index(es[i].logic, first), base, pool, d, c, map);
        lemma_logics_count(ls, ss, logic_index(es[i].logic, first), base, pool, d, c, map);
        lemma_entities_count(es, ls, r1.0, i + 1, first, base, sprites, pool, d, r1.1, map);
    } else {
        lemma_entities_count(es, ls, ss, i + 1, first, base, sprites, pool, d, c, map);
    }
}

/// The first step from `k` on, before the step that ends the script, that
/// gives an item.
fn find_add(ss: &Vec<ScriptStep>, k: usize) -> (r: Option<usize>)
    requires
        k <= ss.len(),
    ensures
        match r {
            Some(x) => first_add(ss@, k as int) == Some(x as int) && x < ss.len(),
            None => first_add(ss@, k as int) is None,
        },
{
    let mut i: usize = k;
    while i < ss.len()
        invariant
            k <= i <= ss.len(),
            first_add(ss@, k as int) == first_add(ss@, i as int),
        decreases ss.len() - i,
    {
        let s = ss[i];
        if s.last_step {
            return None;
        }
        let t = (s.bitfield & 0xfffe) >> 8u16;
        if t >= 0x80 && t - 0x80 < 0xf {
            return Some(i);
        }
        i += 1;
    }
    None
}

/// The item of the pool that draw `d` picks.
fn item_of_draw(pool: &Vec<u16>, d: u64) -> (item: u16)
    requires
        pool.len() >= 1,
    ensures
        item == pool_item(pool@, d),
{
    pool[(d % (pool.len() as u64)) as usize]
}

/// Gives the step the item, keeping its upper bits.
fn set_item(ss: &mut Vec<ScriptStep>, k: usize, item: u16)
    requires
        k < old(ss).len(),
    ensures
        final(ss)@ == old(ss)@.update(k as int, with_item(old(ss)@[k as int], item)),
{
    let s = ss[k];
    ss.set(k, ScriptStep { bitfield: item | ((s.bitfield >> 9u16) << 9u16), last_step: s.last_step });
}

/// Places items in the logic from `j` on (`place_logics`), taking the draws
/// from `draws` from number `placed.len()` on, and adds the placements to
/// `placed`.
fn place_in_logics(
    ls: &Vec<EntityLogic>,
    ss: &mut Vec<ScriptStep>,
    j: usize,
    base: u32,
    pool: &Vec<u16>,
    draws: &Vec<u64>,
    map: usize,
    placed: &mut Vec<(usize, usize, u16)>,
)
    requires
        j <= ls.len(),
        pool.len() >= 1,
        logic_fits(ls@, old(ss)@, j as int, base),
        forall|k: int| j <= k < ls.len() && ls@[k].script.value != 0 ==> base <= #[trigger] ls@[k].script.value,
    ensures
        final(ss).len() == old(ss).len(),
        ({
            let r = place_logics(ls@, old(ss)@, j as int, base, pool@, draws@, old(placed).len() as int, map);
            &&& final(ss)@ == r.0
            &&& final(placed).len() == r.1
            &&& final(placed)@ == old(placed)@ + r.2
        }),
    decreases ls.len() - j,
{
    if j >= ls.len() || ls[j].text_index == 0 {
        assert(placed@ == placed@ + Seq::<(usize, usize, u16)>::empty());
        return;
    }
    if ls[j].script.value == 0 {
        place_in_logics(ls, ss, j + 1, base, pool, draws, map, placed);
        return;
    }
    assert(base <= ls@[j as int].script.value);
    let k0 = ((ls[j].script.value - base) / 4) as usize;
    match find_add(ss, k0) {
        None => {
            place_in_logics(ls, ss, j + 1, base, pool, draws, map, placed);
        },
        Some(k) => {
            let c = placed.len();
            let d = if c < draws.len() { draws[c] } else { 0 };
            let item = item_of_draw(pool, d);
            let ghost before = ss@;
            set_item(ss, k, item);
            proof {
                lemma_logic_fits_len(ls@, before, ss@, j + 1, base);
            }
            let ghost p0 = placed@;
            placed.push((map, j, item));
            place_in_logics(ls, ss, j + 1, base, pool, draws, map, placed);
            proof {
                assert(placed@ =~= p0 + (seq![(map, j, item)] + place_logics(
                    ls@,
                    before.update(k as int, with_item(before[k as int], item)),
                    j + 1,
                    base,
                    pool@,
                    draws@,
                    c + 1,
                    map,
                ).2));
            }
        },
    }
}

/// Places items for the item boxes among the entities from `i` on
/// (`place_entities`), taking the draws from `draws` from number
/// `placed.len()` on, and adds the placements to `placed`.
fn place_in_entities(
    m: &mut MapEntities,
    i: usize,
    first: u32,
    base: u32,
    sprites: &Vec<u16>,
    pool: &Vec<u16>,
    draws: &Vec<u64>,
    map: usize,
    placed: &mut Vec<(usize, usize, u16)>,
)
    requires
        i <= old(m).entities.len(),
        pool.len() >= 1,
        entities_fit(*old(m), i as int, first, base, sprites@),
        forall|k: int|
            0 <= k < old(m).entity_logics.len() && old(m).entity_logics@[k].script.value != 0 ==> base
                <= #[trigger] old(m).entity_logics@[k].script.value,
    ensures
        final(m).entities@ == old(m).entities@,
        final(m).entity_logics@ == old(m).entity_logics@,
        final(m).scripts_conditions.len() == old(m).scripts_conditions.len(),
        ({
            let r = place_entities(
                old(m).entities@,
                old(m).entity_logics@,
                old(m).scripts_conditions@,
                i as int,
                first,
                base,
                sprites@,
                pool@,
                draws@,
                old(placed).len() as int,
                map,
            );
            &&& final(m).scripts_conditions@ == r.0
            &&& final(placed).len() == r.1
            &&& final(placed)@ == old(placed)@ + r.2
        }),
    decreases old(m).entities.len() - i,
{
    if i >= m.entities.len() {
        assert(placed@ == placed@ + Seq::<(usize, usize, u16)>::empty());
        return;
    }
    let e = m.entities[i];
    let ghost m0 = *m;
    let ghost p0 = placed@;
    if e.logic.value != 0 && contains_sprite(sprites, e.sprite) {
        let j = ((e.logic.value - first) / 12) as usize;
        place_in_logics(&m.entity_logics, &mut m.scripts_conditions, j, base, pool, draws, map, placed);
        let ghost p1 = placed@;
        proof {
            lemma_entities_fit_len(m0, *m, i + 1, first, base, sprites@);
        }
        place_in_entities(m, i + 1, first, base, sprites, pool, draws, map, placed);
        proof {
            assert(placed@ =~= p0 + (p1.skip(p0.len() as int) + placed@.skip(p1.len() as int)));
        }
    } else {
        place_in_entities(m, i + 1, first, base, sprites, pool, draws, map, placed);
    }
}

/// Places items in the logic from `j` on (`place_logics`), drawing each
/// item's draw from the generator when it is needed, adds the draws to
/// `draws` and the placements to `placed`.
fn draw_in_logics(
    ls: &Vec<EntityLogic>,
    ss: &mut Vec<ScriptStep>,
    j: usize,
    base: u32,
    pool: &Vec<u16>,
    draws: &mut Vec<u64>,
    rng: &mut Xoshiro256StarStar,
    map: usize,
    placed: &mut Vec<(usize, usize, u16)>,
)
    requires
        old(draws).len() == old(placed).len(),
        j <= ls.len(),
        pool.len() >= 1,
        logic_fits(ls@, old(ss)@, j as int, base),
        forall|k: int| j <= k < ls.len() && ls@[k].script.value != 0 ==> base <= #[trigger] ls@[k].script.value,
    ensures
        final(draws).len() == final(placed).len(),
        final(draws)@.subrange(0, old(draws).len() as int) == old(draws)@,
        final(ss).len() == old(ss).len(),
        ({
            let r = place_logics(ls@, old(ss)@, j as int, base, pool@, final(draws)@, old(placed).len() as int, map);
            &&& final(ss)@ == r.0
            &&& final(placed).len() == r.1
            &&& final(placed)@ == old(placed)@ + r.2
        }),
    decreases ls.len() - j,
{
    if j >= ls.len() || ls[j].text_index == 0 {
        assert(placed@ == placed@ + Seq::<(usize, usize, u16)>::empty());
        return;
    }
    if ls[j].script.value == 0 {
        draw_in_logics(ls, ss, j + 1, base, pool, draws, rng, map, placed);
        return;
    }
    assert(base <= ls@[j as int].script.value);
    let k0 = ((ls[j].script.value - base) / 4) as usize;
    match find_add(ss, k0) {
        None => {
            draw_in_logics(ls, ss, j + 1, base, pool, draws, rng, map, placed);
        },
        Some(k) => {
            let c = placed.len();
            let d = next_u64(rng);
            draws.push(d);
            let ghost drawn = draws@;
            let item = item_of_draw(pool, d);
            let ghost before = ss@;
            set_item(ss, k, item);
            proof {
                lemma_logic_fits_len(ls@, before, ss@, j + 1, base);
            }
            let ghost p0 = placed@;
            placed.push((map, j, item));
            draw_in_logics(ls, ss, j + 1, base, pool, draws, rng, map, placed);
            proof {
                assert(draws@.subrange(0, drawn.len() as int) == drawn);
                assert(draws@[c as int] == drawn[c as int]);
                assert(draw_at(draws@, c as int) == d);
                assert(draws@.subrange(0, old(draws).len() as int) =~= old(draws)@) by {
                    assert(drawn.subrange(0, old(draws).len() as int) =~= old(draws)@);
                    assert forall|q: int| 0 <= q < old(draws).len() implies draws@[q] == drawn[q] by {
                        assert(draws@.subrange(0, drawn.len() as int)[q] == drawn[q]);
                    }
                }
                assert(placed@ =~= p0 + (seq![(map, j, item)] + place_logics(
                    ls@,
                    before.update(k as int, with_item(before[k as int], item)),
                    j + 1,
                    base,
                    pool@,
                    draws@,
                    c + 1,
                    map,
                ).2));
            }
        },
    }
}

/// Places items for the item boxes among the entities from `i` on
/// (`place_entities`), drawing each item's draw from the generator when it
/// is needed, adds the draws to `draws` and the placements to `placed`.
fn draw_in_entities(
    m: &mut MapEntities,
    i: usize,
    first: u32,
    base: u32,
    sprites: &Vec<u16>,
    pool: &Vec<u16>,
    draws: &mut Vec<u64>,
    rng: &mut Xoshiro256StarStar,
    map: usize,
    placed: &mut Vec<(usize, usize, u16)>,
)
    requires
        old(draws).len() == old(placed).len(),
        i <= old(m).entities.len(),
        pool.len() >= 1,
        entities_fit(*old(m), i as int, first, base, sprites@),
        forall|k: int|
            0 <= k < old(m).entity_logics.len() && old(m).entity_logics@[k].script.value != 0 ==> base
                <= #[trigger] old(m).entity_logics@[k].script.value,
    ensures
        final(draws).len() == final(placed).len(),
        final(draws)@.subrange(0, old(draws).len() as int) == old(draws)@,
        final(m).entities@ == old(m).entities@,
        final(m).entity_logics@ == old(m).entity_logics@,
        final(m).scripts_conditions.len() == old(m).scripts_conditions.len(),
        ({
            let r = place_entities(
                old(m).entities@,
                old(m).entity_logics@,
                old(m).scripts_conditions@,
                i as int,
                first,
                base,
                sprites@,
                pool@,
                final(draws)@,
                old(placed).len() as int,
                map,
            );
            &&& final(m).scripts_conditions@ == r.0
            &&& final(placed).len() == r.1
            &&& final(placed)@ == old(placed)@ + r.2
        }),
    decreases old(m).entities.len() - i,
{
    if i >= m.entities.len() {
        assert(placed@ == placed@ + Seq::<(usize, usize, u16)>::empty());
        return;
    }
    let e = m.entities[i];
    let ghost m0 = *m;
    let ghost p0 = placed@;
    if e.logic.value != 0 && contains_sprite(sprites, e.sprite) {
        let j = ((e.logic.value - first) / 12) as usize;
        draw_in_logics(&m.entity_logics, &mut m.scripts_conditions, j, base, pool, draws, rng, map, placed);
        let ghost p1 = placed@;
        let ghost d1 = draws@;
        proof {
            lemma_entities_fit_len(m0, *m, i + 1, first, base, sprites@);
        }
        draw_in_entities(m, i + 1, first, base, sprites, pool, draws, rng, map, placed);
        proof {
            assert forall|q: int| 0 <= q < d1.len() implies draws@[q] == d1[q] by {
                assert(draws@.subrange(0, d1.len() as int)[q] == draws@[q]);
            }
            lemma_logics_prefix(
                m0.entity_logics@,
                m0.scripts_conditions@,
                j as int,
                base,
                pool@,
                d1,
                draws@,
                p0.len() as int,
                map,
            );
            assert(draws@.subrange(0, old(draws).len() as int) =~= old(draws)@) by {
                assert forall|q: int| 0 <= q < old(draws).len() implies draws@[q] == old(draws)@[q] by {
                    assert(d1.subrange(0, old(draws).len() as int)[q] == d1[q]);
                }
            }
            assert(placed@ =~= p0 + (p1.skip(p0.len() as int) + placed@.skip(p1.len() as int)));
        }
    } else {
        draw_in_entities(m, i + 1, first, base, sprites, pool, draws, rng, map, placed);
    }
}

/// Whether the list holds the sprite.
fn contains_sprite(v: &Vec<u16>, x: u16) -> (r: bool)
    ensures
        r == v@.contains(x),
{
    let mut i: usize = 0;
    while i < v.len()
        invariant
            i <= v.len(),
            forall|k: int| 0 <= k < i ==> v@[k] != x,
        decreases v.len() - i,
    {
        if v[i] == x {
            return true;
        }
        i += 1;
    }
    false
}

/// The maps from `n` on have had their script steps replaced by `steps`,
/// and the maps before `n` are as they were.
pub open spec fn maps_placed_from(old_m: Seq<MapEntities>, new_m: Seq<MapEntities>, n: int, steps: Seq<Seq<ScriptStep>>) -> bool {
    &&& new_m.len() == old_m.len()
    &&& steps.len() == old_m.len() - n
    &&& forall|q: int| 0 <= q < n ==> #[trigger] new_m[q] == old_m[q]
    &&& forall|q: int|
        n <= q < old_m.len() ==> {
            &&& (#[trigger] new_m[q]).entities@ == old_m[q].entities@
            &&& new_m[q].entity_logics@ == old_m[q].entity_logics@
            &&& new_m[q].scripts_conditions@ == steps[q - n]
        }
}

/// The base of the steps is no higher than any script address.
proof fn lemma_base_below_all(ls: Seq<EntityLogic>, base: u32)
    requires
        steps_base(ls, 0) == Some(base),
    ensures
        forall|k: int| 0 <= k < ls.len() && ls[k].script.value != 0 ==> base <= #[trigger] ls[k].script.value,
{
    assert forall|k: int| 0 <= k < ls.len() && ls[k].script.value != 0 implies base <= #[trigger] ls[k].script.value by {
        crate::entities::lemma_steps_base_below(ls, 0, k);
    }
}

/// Places items in the item boxes of one map (`place_map`), taking the
/// draws from `draws` from number `placed.len()` on.
fn place_in_map(
    m: &mut MapEntities,
    sprites: &Vec<u16>,
    pool: &Vec<u16>,
    draws: &Vec<u64>,
    map: usize,
    placed: &mut Vec<(usize, usize, u16)>,
)
    requires
        pool.len() >= 1,
        boxes_fit(*old(m), sprites@),
    ensures
        final(m).entities@ == old(m).entities@,
        final(m).entity_logics@ == old(m).entity_logics@,
        ({
            let r = place_map(*old(m), sprites@, pool@, draws@, old(placed).len() as int, map);
            &&& final(m).scripts_conditions@ == r.0
            &&& final(placed).len() == r.1
            &&& final(placed)@ == old(placed)@ + r.2
        }),
{
    let first = match crate::entities::find_first_logic(&m.entities) {
        Some(f) => f,
        None => {
            assert(placed@ == placed@ + Seq::<(usize, usize, u16)>::empty());
            return;
        },
    };
    let base = match crate::entities::find_steps_base(&m.entity_logics) {
        Some(b) => b,
        None => {
            assert(placed@ == placed@ + Seq::<(usize, usize, u16)>::empty());
            return;
        },
    };
    proof {
        lemma_base_below_all(m.entity_logics@, base);
    }
    place_in_entities(m, 0, first, base, sprites, pool, draws, map, placed);
}

/// Places items in the item boxes of one map (`place_map`), drawing each
/// item's draw from the generator when it is needed.
fn draw_in_map(
    m: &mut MapEntities,
    sprites: &Vec<u16>,
    pool: &Vec<u16>,
    draws: &mut Vec<u64>,
    rng: &mut Xoshiro256StarStar,
    map: usize,
    placed: &mut Vec<(usize, usize, u16)>,
)
    requires
        old(draws).len() == old(placed).len(),
        pool.len() >= 1,
        boxes_fit(*old(m), sprites@),
    ensures
        final(draws).len() == final(placed).len(),
        final(draws)@.subrange(0, old(draws).len() as int) == old(draws)@,
        final(m).entities@ == old(m).entities@,
        final(m).entity_logics@ == old(m).entity_logics@,
        ({
            let r = place_map(*old(m), sprites@, pool@, final(draws)@, old(placed).len() as int, map);
            &&& final(m).scripts_conditions@ == r.0
            &&& final(placed).len() == r.1
            &&& final(placed)@ == old(placed)@ + r.2
        }),
{
    let first = match crate::entities::find_first_logic(&m.entities) {
        Some(f) => f,
        None => {
            assert(placed@ == placed@ + Seq::<(usize, usize, u16)>::empty());
            assert(draws@.subrange(0, draws.len() as int) =~= draws@);
            return;
        },
    };
    let base = match crate::entities::find_steps_base(&m.entity_logics) {
        Some(b) => b,
        None => {
            assert(placed@ == placed@ + Seq::<(usize, usize, u16)>::empty());
            assert(draws@.subrange(0, draws.len() as int) =~= draws@);
            return;
        },
    };
    proof {
        lemma_base_below_all(m.entity_logics@, base);
    }
    draw_in_entities(m, 0, first, base, sprites, pool, draws, rng, map, placed);
}

/// Places items in the item boxes of the maps from `n` on, taking the
/// draws from `draws` from number `placed.len()` on.
fn place_in_maps(
    maps: &mut Vec<MapEntities>,
    n: usize,
    sprites: &Vec<u16>,
    pool: &Vec<u16>,
    draws: &Vec<u64>,
    placed: &mut Vec<(usize, usize, u16)>,
)
    requires
        n <= old(maps).len(),
        pool.len() >= 1,
        forall|q: int| n <= q < old(maps).len() ==> boxes_fit(#[trigger] old(maps)@[q], sprites@),
    ensures
        ({
            let r = place_maps(old(maps)@, n as int, sprites@, pool@, draws@, old(placed).len() as int);
            &&& maps_placed_from(old(maps)@, final(maps)@, n as int, r.0)
            &&& final(placed).len() == r.1
            &&& final(placed)@ == old(placed)@ + r.2
        }),
    decreases old(maps).len() - n,
{
    if n >= maps.len() {
        assert(placed@ == placed@ + Seq::<(usize, usize, u16)>::empty());
        return;
    }
    let ghost m0 = maps@;
    let ghost p0 = placed@;
    place_in_map(&mut maps[n], sprites, pool, draws, n, placed);
    let ghost m1 = maps@;
    let ghost p1 = placed@;
    place_in_maps(maps, n + 1, sprites, pool, draws, placed);
    proof {
        let r1 = place_map(m0[n as int], sprites@, pool@, draws@, p0.len() as int, n);
        let r2 = place_maps(m1, n + 1, sprites@, pool@, draws@, r1.1);
        assert(place_maps(m1, n + 1, sprites@, pool@, draws@, r1.1) == place_maps(m0, n + 1, sprites@, pool@, draws@, r1.1))
            by {
            lemma_place_maps_same(m0, m1, n as int + 1, sprites@, pool@, draws@, r1.1);
        }
        assert(placed@ =~= p0 + (r1.2 + r2.2));
        assert forall|q: int| n <= q < m0.len() implies {
            &&& (#[trigger] maps@[q]).entities@ == m0[q].entities@
            &&& maps@[q].entity_logics@ == m0[q].entity_logics@
            &&& maps@[q].scripts_conditions@ == (seq![r1.0] + r2.0)[q - n]
        } by {
            if q == n {
                assert(maps@[q] == m1[q]);
            }
        }
    }
}

/// Placing in the maps from `n` on looks only at those maps.
proof fn lemma_place_maps_same(
    a: Seq<MapEntities>,
    b: Seq<MapEntities>,
    n: int,
    sprites: Seq<u16>,
    pool: Seq<u16>,
    draws: Seq<u64>,
    c: int,
)
    requires
        a.len() == b.len(),
        0 <= n,
        forall|q: int| n <= q < a.len() ==> #[trigger] a[q] == b[q],
    ensures
        place_maps(a, n, sprites, pool, draws, c) == place_maps(b, n, sprites, pool, draws, c),
    decreases a.len() - n,
{
    if n < a.len() {
        let r1 = place_map(a[n], sprites, pool, draws, c, n as usize);
        lemma_place_maps_same(a, b, n + 1, sprites, pool, draws, r1.1);
    }
}

/// Placing in one map uses draws from `c` on only.
proof fn lemma_map_prefix(
    m: MapEntities,
    sprites: Seq<u16>,
    pool: Seq<u16>,
    d1: Seq<u64>,
    d2: Seq<u64>,
    c: int,
    map: usize,
)
    requires
        d1.len() <= d2.len(),
        forall|q: int| 0 <= q < d1.len() ==> d2[q] == d1[q],
        place_map(m, sprites, pool, d1, c, map).1 <= d1.len(),
    ensures
        place_map(m, sprites, pool, d1, c, map) == place_map(m, sprites, pool, d2, c, map),
{
    match (first_logic(m.entities@, 0), steps_base(m.entity_logics@, 0)) {
        (Some(first), Some(base)) => {
            lemma_entities_prefix(
                m.entities@,
                m.entity_logics@,
                m.scripts_conditions@,
                0,
                first,
                base,
                sprites,
                pool,
                d1,
                d2,
                c,
                map,
            );
        },
        _ => {},
    }
}

/// Places items in the item boxes of the maps from `n` on, drawing each
/// item's draw from the generator when it is needed.
fn draw_in_maps(
    maps: &mut Vec<MapEntities>,
    n: usize,
    sprites: &Vec<u16>,
    pool: &Vec<u16>,
    draws: &mut Vec<u64>,
    rng: &mut Xoshiro256StarStar,
    placed: &mut Vec<(usize, usize, u16)>,
)
    requires
        old(draws).len() == old(placed).len(),
        n <= old(maps).len(),
        pool.len() >= 1,
        forall|q: int| n <= q < old(maps).len() ==> boxes_fit(#[trigger] old(maps)@[q], sprites@),
    ensures
        final(draws).len() == final(placed).len(),
        final(draws)@.subrange(0, old(draws).len() as int) == old(draws)@,
        ({
            let r = place_maps(old(maps)@, n as int, sprites@, pool@, final(draws)@, old(placed).len() as int);
            &&& maps_placed_from(old(maps)@, final(maps)@, n as int, r.0)
            &&& final(placed).len() == r.1
            &&& final(placed)@ == old(placed)@ + r.2
        }),
    decreases old(maps).len() - n,
{
    if n >= maps.len() {
        assert(placed@ == placed@ + Seq::<(usize, usize, u16)>::empty());
        assert(draws@.subrange(0, draws.len() as int) =~= draws@);
        return;
    }
    let ghost m0 = maps@;
    let ghost p0 = placed@;
    draw_in_map(&mut maps[n], sprites, pool, draws, rng, n, placed);
    let ghost m1 = maps@;
    let ghost p1 = placed@;
    let ghost d1 = draws@;
    draw_in_maps(maps, n + 1, sprites, pool, draws, rng, placed);
    proof {
        assert forall|q: int| 0 <= q < d1.len() implies draws@[q] == d1[q] by {
            assert(draws@.subrange(0, d1.len() as int)[q] == draws@[q]);
        }
        lemma_map_prefix(m0[n as int], sprites@, pool@, d1, draws@, p0.len() as int, n);
        assert(draws@.subrange(0, old(draws).len() as int) =~= old(draws)@) by {
            assert forall|q: int| 0 <= q < old(draws).len() implies draws@[q] == old(draws)@[q] by {
                assert(d1.subrange(0, old(draws).len() as int)[q] == d1[q]);
            }
        }
        let r1 = place_map(m0[n as int], sprites@, pool@, draws@, p0.len() as int, n);
        let r2 = place_maps(m1, n + 1, sprites@, pool@, draws@, r1.1);
        assert(place_maps(m1, n + 1, sprites@, pool@, draws@, r1.1) == place_maps(m0, n + 1, sprites@, pool@, draws@, r1.1))
            by {
            lemma_place_maps_same(m0, m1, n as int + 1, sprites@, pool@, draws@, r1.1);
        }
        assert(placed@ =~= p0 + (r1.2 + r2.2));
        assert forall|q: int| n <= q < m0.len() implies {
            &&& (#[trigger] maps@[q]).entities@ == m0[q].entities@
            &&& maps@[q].entity_logics@ == m0[q].entity_logics@
            &&& maps@[q].scripts_conditions@ == (seq![r1.0] + r2.0)[q - n]
        } by {
            if q == n {
                assert(maps@[q] == m1[q]);
            }
        }
    }
}

/// Gives the item boxes of the maps items from the pool with the given
/// draws, one for each placement: for every item box, in every piece of
/// the logic it points to up to the first that shows no text, the first
/// step of the script that gives an item, before the step that ends it,
/// gives `pool[draw % pool.len()]` instead, keeping its upper bits
/// (`place_maps`). Returns the placements, as (map, logic, item), in order.
/// A missing draw counts as 0.
pub fn item_boxes_with_draws(
    maps: &mut Vec<MapEntities>,
    sprites: &Vec<u16>,
    pool: &Vec<u16>,
    draws: &Vec<u64>,
) -> (placed: Vec<(usize, usize, u16)>)
    requires
        pool.len() >= 1,
        forall|q: int| 0 <= q < old(maps).len() ==> boxes_fit(#[trigger] old(maps)@[q], sprites@),
    ensures
        ({
            let r = place_maps(old(maps)@, 0, sprites@, pool@, draws@, 0);
            &&& maps_placed_from(old(maps)@, final(maps)@, 0, r.0)
            &&& placed@ == r.2
            &&& placed.len() == r.1
        }),
{
    let mut placed: Vec<(usize, usize, u16)> = Vec::new();
    place_in_maps(maps, 0, sprites, pool, draws, &mut placed);
    assert(placed@ =~= Seq::<(usize, usize, u16)>::empty() + place_maps(old(maps)@, 0, sprites@, pool@, draws@, 0).2);
    placed
}

/// Gives the item boxes of the maps random items from the pool of the
/// shoppable items (`shoppable`): one `next_u64` draw for each placement,
/// in order, as `item_boxes_with_draws` places them. Returns the
/// placements, as (map, logic, item), in order.
pub fn item_boxes(
    maps: &mut Vec<MapEntities>,
    sprites: &Vec<u16>,
    data: &Vec<ItemShopData>,
    items_only: ShopItems,
    rng: &mut Xoshiro256StarStar,
) -> (placed: Vec<(usize, usize, u16)>)
    requires
        data.len() <= 0x10000,
        shoppable_count(data@, items_only, data.len() as int) >= 1,
        forall|q: int| 0 <= q < old(maps).len() ==> boxes_fit(#[trigger] old(maps)@[q], sprites@),
    ensures
        exists|pool: Seq<u16>, draws: Seq<u64>|
            #![trigger place_maps(old(maps)@, 0, sprites@, pool, draws, 0)]
            {
                &&& strictly_increasing(pool)
                &&& forall|x: u16| #[trigger] pool.contains(x) <==> is_shoppable(data@, items_only, x as int)
                &&& draws.len() == placed.len()
                &&& maps_placed_from(old(maps)@, final(maps)@, 0, place_maps(old(maps)@, 0, sprites@, pool, draws, 0).0)
                &&& placed@ == place_maps(old(maps)@, 0, sprites@, pool, draws, 0).2
            },
{
    let pool = shoppable(data, items_only);
    let mut draws: Vec<u64> = Vec::new();
    let mut placed: Vec<(usize, usize, u16)> = Vec::new();
    draw_in_maps(maps, 0, sprites, &pool, &mut draws, rng, &mut placed);
    assert(placed@ =~= Seq::<(usize, usize, u16)>::empty() + place_maps(old(maps)@, 0, sprites@, pool@, draws@, 0).2);
    placed
}

/// A group of talk texts of the maps, as the item box randomizer keeps
/// it: the texts in each language (the first is the executable's own), the
/// items whose received-item text the group already has, with its index,
/// and the text indices already overwritten.
pub struct TextGroup {
    pub files: Vec<Vec<Vec<u8>>>,
    pub mapped_items: Vec<(u16, u16)>,
    pub overwritten: Vec<u32>,
}

/// The contents of a text group.
pub struct TextGroupView {
    pub files: Seq<Seq<Seq<u8>>>,
    pub mapped: Seq<(u16, u16)>,
    pub overwritten: Seq<u32>,
}

/// The texts of each language, as byte sequences.
pub open spec fn files_view(f: Seq<Vec<Vec<u8>>>) -> Seq<Seq<Seq<u8>>> {
    f.map_values(|row: Vec<Vec<u8>>| row@.map_values(|t: Vec<u8>| t@))
}

impl View for TextGroup {
    type V = TextGroupView;

    open spec fn view(&self) -> TextGroupView {
        TextGroupView { files: files_view(self.files@), mapped: self.mapped_items@, overwritten: self.overwritten@ }
    }
}

/// The contents of the text groups.
pub open spec fn groups_view(gs: Seq<TextGroup>) -> Seq<TextGroupView> {
    gs.map_values(|g: TextGroup| g@)
}

/// The text indices of the logic of every map.
pub open spec fn text_indices(maps: Seq<MapEntities>) -> Seq<Seq<u32>> {
    maps.map_values(|m: MapEntities| m.entity_logics@.map_values(|l: EntityLogic| l.text_index))
}

/// The text index that the group holds for the item's received text.
pub open spec fn lookup_item(mapped: Seq<(u16, u16)>, item: u16) -> Option<u16>
    decreases mapped.len(),
{
    if mapped.len() == 0 {
        None
    } else if mapped[0].0 == item {
        Some(mapped[0].1)
    } else {
        lookup_item(mapped.drop_first(), item)
    }
}

/// The received-item text of `item` in language `l`: the language's text
/// before the name, the item's name in that language, the text after it.
pub open spec fn received(names: Seq<Seq<Seq<u8>>>, frames: Seq<(Seq<u8>, Seq<u8>)>, l: int, item: u16) -> Seq<u8> {
    framed(frames[l].0, names[l][item as int], frames[l].1)
}

/// What giving logic `j` of map `m` the text of receiving `item` does to
/// the text indices and the text groups: a text the group already has for
/// the item is reused; else, when the logic's text was overwritten
/// before, the text is added at the end of every language's texts; else
/// it overwrites the logic's text in every language.
pub open spec fn text_step(
    texts: Seq<Seq<u32>>,
    groups: Seq<TextGroupView>,
    p: (usize, usize, u16),
    talk: Seq<usize>,
    names: Seq<Seq<Seq<u8>>>,
    frames: Seq<(Seq<u8>, Seq<u8>)>,
) -> (Seq<Seq<u32>>, Seq<TextGroupView>) {
    let m = p.0 as int;
    let j = p.1 as int;
    let item = p.2;
    let g = talk[m] as int;
    let gr = groups[g];
    let t = texts[m][j];
    match lookup_item(gr.mapped, item) {
        Some(idx) => (texts.update(m, texts[m].update(j, idx as u32)), groups),
        None => if gr.overwritten.contains(t) {
            let idx = gr.files[0].len();
            (
                texts.update(m, texts[m].update(j, ((idx as int) % 0x1_0000_0000) as u32)),
                groups.update(
                    g,
                    TextGroupView {
                        files: Seq::new(gr.files.len(), |l: int| gr.files[l].push(received(names, frames, l, item))),
                        mapped: gr.mapped.push((item, (idx % 0x10000) as u16)),
                        overwritten: gr.overwritten,
                    },
                ),
            )
        } else {
            (
                texts,
                groups.update(
                    g,
                    TextGroupView {
                        files: Seq::new(
                            gr.files.len(),
                            |l: int| gr.files[l].update(t as int, received(names, frames, l, item)),
                        ),
                        mapped: gr.mapped.push((item, (t % 0x10000) as u16)),
                        overwritten: gr.overwritten.push(t),
                    },
                ),
            )
        },
    }
}

/// The text indices and groups after the first `n` placements.
pub open spec fn texts_after(
    texts: Seq<Seq<u32>>,
    groups: Seq<TextGroupView>,
    placed: Seq<(usize, usize, u16)>,
    n: int,
    talk: Seq<usize>,
    names: Seq<Seq<Seq<u8>>>,
    frames: Seq<(Seq<u8>, Seq<u8>)>,
) -> (Seq<Seq<u32>>, Seq<TextGroupView>)
    decreases n,
{
    if n <= 0 {
        (texts, groups)
    } else {
        let prev = texts_after(texts, groups, placed, n - 1, talk, names, frames);
        text_step(prev.0, prev.1, placed[n - 1], talk, names, frames)
    }
}

/// Every group has the texts of the `nl` languages, all of one length,
/// and the text indices it holds for items lie within them.
pub open spec fn groups_ok(groups: Seq<TextGroupView>, nl: int) -> bool {
    forall|g: int|
        0 <= g < groups.len() ==> {
            &&& (#[trigger] groups[g]).files.len() == nl
            &&& forall|l: int| 0 <= l < nl ==> (#[trigger] groups[g].files[l]).len() == groups[g].files[0].len()
            &&& forall|q: int| 0 <= q < groups[g].mapped.len() ==> (#[trigger] groups[g].mapped[q]).1 < groups[g].files[0].len()
        }
}

/// Every placement's map has a text group, and the logic's text index
/// lies within that group's texts.
pub open spec fn texts_ok(
    texts: Seq<Seq<u32>>,
    groups: Seq<TextGroupView>,
    placed: Seq<(usize, usize, u16)>,
    talk: Seq<usize>,
) -> bool {
    forall|k: int|
        0 <= k < placed.len() ==> {
            let m = (#[trigger] placed[k]).0 as int;
            let j = placed[k].1 as int;
            &&& m < texts.len()
            &&& m < talk.len()
            &&& j < texts[m].len()
            &&& talk[m] < groups.len()
            &&& texts[m][j] < groups[talk[m] as int].files[0].len()
        }
}

/// The names of the placed items exist in every language, hold a byte
/// other than zero, and their texts fit in memory.
pub open spec fn names_ok(
    placed: Seq<(usize, usize, u16)>,
    names: Seq<Seq<Seq<u8>>>,
    frames: Seq<(Seq<u8>, Seq<u8>)>,
) -> bool {
    forall|k: int, l: int|
        0 <= k < placed.len() && 0 <= l < names.len() ==> {
            let item = (#[trigger] placed[k]).2 as int;
            &&& item < (#[trigger] names[l]).len()
            &&& exists|b: int| 0 <= b < names[l][item].len() && names[l][item][b] != 0
            &&& frames[l].0.len() + names[l][item].len() + frames[l].1.len() + 4 <= usize::MAX
        }
}

/// The views of the language frames.
pub open spec fn frames_view(frames: Seq<(Vec<u8>, Vec<u8>)>) -> Seq<(Seq<u8>, Seq<u8>)> {
    frames.map_values(|f: (Vec<u8>, Vec<u8>)| (f.0@, f.1@))
}

/// The views of the item names of each language.
pub open spec fn names_view(names: Seq<Vec<Vec<u8>>>) -> Seq<Seq<Seq<u8>>> {
    files_view(names)
}

/// The maps agree in all but the text indices of their logic.
pub open spec fn same_but_texts(a: Seq<MapEntities>, b: Seq<MapEntities>) -> bool {
    &&& a.len() == b.len()
    &&& forall|m: int|
        0 <= m < a.len() ==> {
            &&& (#[trigger] b[m]).entities@ == a[m].entities@
            &&& b[m].scripts_conditions@ == a[m].scripts_conditions@
            &&& b[m].entity_logics.len() == a[m].entity_logics.len()
            &&& forall|j: int|
                0 <= j < a[m].entity_logics.len() ==> (#[trigger] b[m].entity_logics@[j]).script == a[m].entity_logics@[j].script
                    && b[m].entity_logics@[j].conditions == a[m].entity_logics@[j].conditions
        }
}

/// The text index the group holds for the item.
fn find_mapped(mapped: &Vec<(u16, u16)>, item: u16) -> (r: Option<u16>)
    ensures
        r == lookup_item(mapped@, item),
{
    let mut i: usize = 0;
    assert(mapped@.skip(0) =~= mapped@);
    while i < mapped.len()
        invariant
            i <= mapped.len(),
            lookup_item(mapped@, item) == lookup_item(mapped@.skip(i as int), item),
        decreases mapped.len() - i,
    {
        assert(mapped@.skip(i as int).drop_first() =~= mapped@.skip(i + 1));
        if mapped[i].0 == item {
            return Some(mapped[i].1);
        }
        i += 1;
    }
    None
}

/// Whether the list holds the text index.
fn contains_index(v: &Vec<u32>, x: u32) -> (r: bool)
    ensures
        r == v@.contains(x),
{
    let mut i: usize = 0;
    while i < v.len()
        invariant
            i <= v.len(),
            forall|k: int| 0 <= k < i ==> v@[k] != x,
        decreases v.len() - i,
    {
        if v[i] == x {
            return true;
        }
        i += 1;
    }
    false
}

/// Sets the text index of logic `j`.
fn set_text_index(m: &mut MapEntities, j: usize, v: u32)
    requires
        j < old(m).entity_logics.len(),
    ensures
        final(m).entities@ == old(m).entities@,
        final(m).scripts_conditions@ == old(m).scripts_conditions@,
        final(m).entity_logics@ == old(m).entity_logics@.update(
            j as int,
            EntityLogic { text_index: v, ..old(m).entity_logics@[j as int] },
        ),
{
    let l = m.entity_logics[j];
    m.entity_logics.set(j, EntityLogic { script: l.script, conditions: l.conditions, text_index: v });
}

/// The received-item text of the item in language `l`.
fn received_text(names: &Vec<Vec<Vec<u8>>>, frames: &Vec<(Vec<u8>, Vec<u8>)>, l: usize, item: u16) -> (r: Vec<u8>)
    requires
        l < names.len(),
        l < frames.len(),
        (item as int) < names@[l as int].len(),
        frames@[l as int].0.len() + names@[l as int]@[item as int].len() + frames@[l as int].1.len() + 4 <= usize::MAX,
    ensures
        r@ == received(names_view(names@), frames_view(frames@), l as int, item),
{
    frame_with_name(frames[l].0.as_slice(), names[l][item as usize].as_slice(), frames[l].1.as_slice())
}

/// Adds the item's received text at the end of every language's texts.
fn append_received(gr: &mut TextGroup, names: &Vec<Vec<Vec<u8>>>, frames: &Vec<(Vec<u8>, Vec<u8>)>, item: u16)
    requires
        old(gr).files.len() == names.len() == frames.len(),
        forall|l: int|
            0 <= l < names.len() ==> (item as int) < (#[trigger] names@[l]).len() && frames@[l].0.len()
                + names@[l]@[item as int].len() + frames@[l].1.len() + 4 <= usize::MAX,
    ensures
        final(gr)@.mapped == old(gr)@.mapped,
        final(gr)@.overwritten == old(gr)@.overwritten,
        final(gr)@.files == Seq::new(
            old(gr)@.files.len(),
            |l: int| old(gr)@.files[l].push(received(names_view(names@), frames_view(frames@), l, item)),
        ),
{
    let ghost f0 = old(gr)@.files;
    let ghost want = Seq::new(
        f0.len(),
        |l: int| f0[l].push(received(names_view(names@), frames_view(frames@), l, item)),
    );
    let mut l: usize = 0;
    while l < gr.files.len()
        invariant
            gr.files.len() == f0.len() == names.len() == frames.len(),
            l <= gr.files.len(),
            gr.mapped_items@ == old(gr).mapped_items@,
            gr.overwritten@ == old(gr).overwritten@,
            forall|q: int| 0 <= q < l ==> #[trigger] files_view(gr.files@)[q] == want[q],
            forall|q: int| l <= q < f0.len() ==> #[trigger] files_view(gr.files@)[q] == f0[q],
            forall|q: int|
                0 <= q < names.len() ==> (item as int) < (#[trigger] names@[q]).len() && frames@[q].0.len()
                    + names@[q]@[item as int].len() + frames@[q].1.len() + 4 <= usize::MAX,
            want == Seq::new(
                f0.len(),
                |q: int| f0[q].push(received(names_view(names@), frames_view(frames@), q, item)),
            ),
        decreases f0.len() - l,
    {
        let txt = received_text(names, frames, l, item);
        let ghost before = gr.files@;
        let ghost tv: Vec<u8> = txt;
        gr.files[l].push(txt);
        proof {
            let row = gr.files@[l as int];
            assert(row@ == before[l as int]@.push(tv));
            assert(files_view(gr.files@)[l as int] == row@.map_values(|x: Vec<u8>| x@));
            assert(files_view(before)[l as int] == before[l as int]@.map_values(|x: Vec<u8>| x@));
            assert(row@.map_values(|x: Vec<u8>| x@) =~= before[l as int]@.map_values(|x: Vec<u8>| x@).push(tv@));
            assert(files_view(gr.files@)[l as int] == want[l as int]);
            assert forall|q: int| 0 <= q < f0.len() && q != l implies #[trigger] files_view(gr.files@)[q] == files_view(
                before,
            )[q] by {
                assert(gr.files@[q] == before[q]);
            }
        }
        l += 1;
    }
    assert(files_view(gr.files@) =~= want);
}

/// Overwrites text `t` of every language with the item's received text.
fn overwrite_received(
    gr: &mut TextGroup,
    t: usize,
    names: &Vec<Vec<Vec<u8>>>,
    frames: &Vec<(Vec<u8>, Vec<u8>)>,
    item: u16,
)
    requires
        old(gr).files.len() == names.len() == frames.len(),
        forall|l: int| 0 <= l < old(gr).files.len() ==> t < (#[trigger] old(gr).files@[l]).len(),
        forall|l: int|
            0 <= l < names.len() ==> (item as int) < (#[trigger] names@[l]).len() && frames@[l].0.len()
                + names@[l]@[item as int].len() + frames@[l].1.len() + 4 <= usize::MAX,
    ensures
        final(gr)@.mapped == old(gr)@.mapped,
        final(gr)@.overwritten == old(gr)@.overwritten,
        final(gr)@.files == Seq::new(
            old(gr)@.files.len(),
            |l: int| old(gr)@.files[l].update(t as int, received(names_view(names@), frames_view(frames@), l, item)),
        ),
{
    let ghost f0 = old(gr)@.files;
    let ghost want = Seq::new(
        f0.len(),
        |l: int| f0[l].update(t as int, received(names_view(names@), frames_view(frames@), l, item)),
    );
    let mut l: usize = 0;
    while l < gr.files.len()
        invariant
            gr.files.len() == f0.len() == names.len() == frames.len(),
            l <= gr.files.len(),
            gr.mapped_items@ == old(gr).mapped_items@,
            gr.overwritten@ == old(gr).overwritten@,
            forall|q: int| 0 <= q < l ==> #[trigger] files_view(gr.files@)[q] == want[q],
            forall|q: int| l <= q < f0.len() ==> #[trigger] files_view(gr.files@)[q] == f0[q],
            forall|q: int| 0 <= q < f0.len() ==> (#[trigger] gr.files@[q]).len() == f0[q].len(),
            forall|q: int| 0 <= q < f0.len() ==> t < (#[trigger] f0[q]).len(),
            forall|q: int|
                0 <= q < names.len() ==> (item as int) < (#[trigger] names@[q]).len() && frames@[q].0.len()
                    + names@[q]@[item as int].len() + frames@[q].1.len() + 4 <= usize::MAX,
            want == Seq::new(
                f0.len(),
                |q: int| f0[q].update(t as int, received(names_view(names@), frames_view(frames@), q, item)),
            ),
        decreases f0.len() - l,
    {
        let txt = received_text(names, frames, l, item);
        let ghost before = gr.files@;
        proof {
            assert(t < f0[l as int].len());
            assert(files_view(before)[l as int] == f0[l as int]);
        }
        let ghost tv: Vec<u8> = txt;
        gr.files[l].set(t, txt);
        proof {
            let row = gr.files@[l as int];
            assert(row@ == before[l as int]@.update(t as int, tv));
            assert(files_view(gr.files@)[l as int] == row@.map_values(|x: Vec<u8>| x@));
            assert(files_view(before)[l as int] == before[l as int]@.map_values(|x: Vec<u8>| x@));
            assert(row@.map_values(|x: Vec<u8>| x@) =~= before[l as int]@.map_values(|x: Vec<u8>| x@).update(
                t as int,
                tv@,
            ));
            assert(files_view(gr.files@)[l as int] == want[l as int]);
            assert forall|q: int| 0 <= q < f0.len() && q != l implies #[trigger] files_view(gr.files@)[q] == files_view(
                before,
            )[q] by {
                assert(gr.files@[q] == before[q]);
            }
        }
        l += 1;
    }
    assert(files_view(gr.files@) =~= want);
}

/// A text index that the group holds for an item is one of its pairs'.
proof fn lemma_lookup_in(mapped: Seq<(u16, u16)>, item: u16)
    ensures
        lookup_item(mapped, item) matches Some(v) ==> exists|q: int| 0 <= q < mapped.len() && #[trigger] mapped[q].1 == v,
    decreases mapped.len(),
{
    if mapped.len() > 0 && mapped[0].0 != item {
        lemma_lookup_in(mapped.drop_first(), item);
        if let Some(v) = lookup_item(mapped, item) {
            let q = choose|q: int| 0 <= q < mapped.drop_first().len() && #[trigger] mapped.drop_first()[q].1 == v;
            assert(mapped[q + 1].1 == v);
        }
    } else if mapped.len() > 0 {
        assert(mapped[0].1 == mapped[0].1);
    }
}

/// A step keeps the groups and the text indices fit for the placements.
proof fn lemma_step_ok(
    texts: Seq<Seq<u32>>,
    groups: Seq<TextGroupView>,
    placed: Seq<(usize, usize, u16)>,
    k: int,
    talk: Seq<usize>,
    names: Seq<Seq<Seq<u8>>>,
    frames: Seq<(Seq<u8>, Seq<u8>)>,
    nl: int,
)
    requires
        nl >= 1,
        names.len() == nl,
        frames.len() == nl,
        0 <= k < placed.len(),
        groups_ok(groups, nl),
        texts_ok(texts, groups, placed, talk),
    ensures
        groups_ok(text_step(texts, groups, placed[k], talk, names, frames).1, nl),
        texts_ok(
            text_step(texts, groups, placed[k], talk, names, frames).0,
            text_step(texts, groups, placed[k], talk, names, frames).1,
            placed,
            talk,
        ),
{
    let p = placed[k];
    let m = p.0 as int;
    let j = p.1 as int;
    let item = p.2;
    let g = talk[m] as int;
    let gr = groups[g];
    let t = texts[m][j];
    let r = text_step(texts, groups, p, talk, names, frames);
    assert(m < texts.len() && j < texts[m].len() && g < groups.len());
    assert(gr.files.len() == nl);
    match lookup_item(gr.mapped, item) {
        Some(idx) => {
            lemma_lookup_in(gr.mapped, item);
            let q = choose|q: int| 0 <= q < gr.mapped.len() && #[trigger] gr.mapped[q].1 == idx;
            assert(gr.mapped[q].1 < gr.files[0].len());
            assert forall|kk: int| 0 <= kk < placed.len() implies {
                let mm = (#[trigger] placed[kk]).0 as int;
                let jj = placed[kk].1 as int;
                &&& mm < r.0.len()
                &&& mm < talk.len()
                &&& jj < r.0[mm].len()
                &&& talk[mm] < r.1.len()
                &&& r.0[mm][jj] < r.1[talk[mm] as int].files[0].len()
            } by {
                let mm = placed[kk].0 as int;
                let jj = placed[kk].1 as int;
                assert(mm < texts.len() && jj < texts[mm].len());
            }
        },
        None => {
            if gr.overwritten.contains(t) {
                let idx = gr.files[0].len();
                let ng = r.1[g];
                assert(ng.files.len() == nl);
                assert forall|l: int| 0 <= l < nl implies (#[trigger] ng.files[l]).len() == ng.files[0].len() by {
                    assert(gr.files[l].len() == gr.files[0].len());
                }
                assert(ng.files[0].len() == idx + 1);
                assert forall|q: int| 0 <= q < ng.mapped.len() implies (#[trigger] ng.mapped[q]).1 < ng.files[0].len() by {
                    if q < gr.mapped.len() {
                        assert(ng.mapped[q] == gr.mapped[q]);
                    }
                }
                assert(groups_ok(r.1, nl)) by {
                    assert forall|gg: int| 0 <= gg < r.1.len() && gg != g implies #[trigger] r.1[gg] == groups[gg] by {}
                }
                assert forall|kk: int| 0 <= kk < placed.len() implies {
                    let mm = (#[trigger] placed[kk]).0 as int;
                    let jj = placed[kk].1 as int;
                    &&& mm < r.0.len()
                    &&& mm < talk.len()
                    &&& jj < r.0[mm].len()
                    &&& talk[mm] < r.1.len()
                    &&& r.0[mm][jj] < r.1[talk[mm] as int].files[0].len()
                } by {
                    let mm = placed[kk].0 as int;
                    let jj = placed[kk].1 as int;
                    assert(mm < texts.len() && jj < texts[mm].len());
                }
            } else {
                let ng = r.1[g];
                assert forall|l: int| 0 <= l < nl implies (#[trigger] ng.files[l]).len() == ng.files[0].len() by {
                    assert(gr.files[l].len() == gr.files[0].len());
                }
                assert(t < gr.files[0].len());
                assert forall|q: int| 0 <= q < ng.mapped.len() implies (#[trigger] ng.mapped[q]).1 < ng.files[0].len() by {
                    if q < gr.mapped.len() {
                        assert(ng.mapped[q] == gr.mapped[q]);
                    }
                }
                assert(groups_ok(r.1, nl)) by {
                    assert forall|gg: int| 0 <= gg < r.1.len() && gg != g implies #[trigger] r.1[gg] == groups[gg] by {}
                }
                assert forall|kk: int| 0 <= kk < placed.len() implies {
                    let mm = (#[trigger] placed[kk]).0 as int;
                    let jj = placed[kk].1 as int;
                    &&& mm < r.0.len()
                    &&& mm < talk.len()
                    &&& jj < r.0[mm].len()
                    &&& talk[mm] < r.1.len()
                    &&& r.0[mm][jj] < r.1[talk[mm] as int].files[0].len()
                } by {
                    let mm = placed[kk].0 as int;
                    let jj = placed[kk].1 as int;
                    assert(mm < texts.len() && jj < texts[mm].len());
                }
            }
        },
    }
}

/// Gives logic `j` of map `m` the text of receiving `item`, as
/// `text_step` says.
fn receive_one(
    maps: &mut Vec<MapEntities>,
    groups: &mut Vec<TextGroup>,
    talk: &Vec<usize>,
    p: (usize, usize, u16),
    names: &Vec<Vec<Vec<u8>>>,
    frames: &Vec<(Vec<u8>, Vec<u8>)>,
)
    requires
        names.len() == frames.len() >= 1,
        groups_ok(groups_view(old(groups)@), names.len() as int),
        texts_ok(text_indices(old(maps)@), groups_view(old(groups)@), seq![p], talk@),
        names_ok(seq![p], names_view(names@), frames_view(frames@)),
    ensures
        (text_indices(final(maps)@), groups_view(final(groups)@)) == text_step(
            text_indices(old(maps)@),
            groups_view(old(groups)@),
            p,
            talk@,
            names_view(names@),
            frames_view(frames@),
        ),
        same_but_texts(old(maps)@, final(maps)@),
        final(groups).len() == old(groups).len(),
{
    let ghost g0 = groups_view(groups@);
    let ghost t0 = text_indices(maps@);
    let (m, j, item) = p;
    assert(seq![p][0] == p);
    let g = talk[m];
    assert(m < maps.len() && j < maps@[m as int].entity_logics.len());
    let t = maps[m].entity_logics[j].text_index;
    assert(t == t0[m as int][j as int]);
    assert(groups@[g as int]@ == g0[g as int]);
    proof {
        assert forall|l: int| 0 <= l < names.len() implies (item as int) < (#[trigger] names@[l]).len() && frames@[l].0.len()
            + names@[l]@[item as int].len() + frames@[l].1.len() + 4 <= usize::MAX by {
            assert(names_view(names@)[l] == names@[l]@.map_values(|x: Vec<u8>| x@));
            assert(names_view(names@)[l][item as int] == names@[l]@[item as int]@);
            assert(frames_view(frames@)[l] == (frames@[l].0@, frames@[l].1@));
        }
    }
    match find_mapped(&groups[g].mapped_items, item) {
        Some(idx) => {
            let ghost mb = maps@;
            set_text_index(&mut maps[m], j, idx as u32);
            proof {
                assert(text_indices(maps@) =~= t0.update(m as int, t0[m as int].update(j as int, idx as u32))) by {
                    assert(text_indices(maps@)[m as int] =~= t0[m as int].update(j as int, idx as u32));
                }
                assert(groups_view(groups@) =~= g0);
            }
        },
        None => {
            if contains_index(&groups[g].overwritten, t) {
                let idx = groups[g].files[0].len();
                assert(idx as u32 == ((idx as u64) % 0x1_0000_0000) as u32) by (bit_vector);
                assert(idx as u16 == (idx % 0x10000) as u16) by (bit_vector);
                let ghost gb = groups@;
                append_received(&mut groups[g], names, frames, item);
                let ghost ga = groups@;
                push_mapped(&mut groups[g], item, idx as u16);
                set_text_index(&mut maps[m], j, idx as u32);
                proof {
                    assert(text_indices(maps@) =~= t0.update(
                        m as int,
                        t0[m as int].update(j as int, ((idx as int) % 0x1_0000_0000) as u32),
                    )) by {
                        assert(text_indices(maps@)[m as int] =~= t0[m as int].update(
                            j as int,
                            ((idx as int) % 0x1_0000_0000) as u32,
                        ));
                    }
                    assert(g0[g as int].files[0].len() == idx);
                    assert(groups@[g as int]@.files =~= Seq::new(
                        g0[g as int].files.len(),
                        |l: int| g0[g as int].files[l].push(received(names_view(names@), frames_view(frames@), l, item)),
                    ));
                    assert(groups_view(groups@) =~= g0.update(
                        g as int,
                        TextGroupView {
                            files: Seq::new(
                                g0[g as int].files.len(),
                                |l: int| g0[g as int].files[l].push(received(names_view(names@), frames_view(frames@), l, item)),
                            ),
                            mapped: g0[g as int].mapped.push((item, (idx % 0x10000) as u16)),
                            overwritten: g0[g as int].overwritten,
                        },
                    ));
                }
            } else {
                assert(t < g0[g as int].files[0].len());
                proof {
                    let gi = g as int;
                    assert forall|l: int| 0 <= l < groups@[gi].files.len() implies (t as usize) < (#[trigger] groups@[gi].files@[l]).len() by {
                        assert(g0[g as int].files[l].len() == g0[g as int].files[0].len());
                        assert(g0[g as int].files[l] == groups@[g as int].files@[l]@.map_values(|x: Vec<u8>| x@));
                    }
                }
                overwrite_received(&mut groups[g], t as usize, names, frames, item);
                assert(t as u16 == (t % 0x10000) as u16) by (bit_vector);
                push_mapped(&mut groups[g], item, t as u16);
                push_overwritten(&mut groups[g], t);
                proof {
                    assert(text_indices(maps@) =~= t0);
                    assert(groups_view(groups@) =~= g0.update(
                        g as int,
                        TextGroupView {
                            files: Seq::new(
                                g0[g as int].files.len(),
                                |l: int| g0[g as int].files[l].update(t as int, received(names_view(names@), frames_view(frames@), l, item)),
                            ),
                            mapped: g0[g as int].mapped.push((item, (t % 0x10000) as u16)),
                            overwritten: g0[g as int].overwritten.push(t),
                        },
                    ));
                }
            }
        },
    }
}

/// Records the text index of an item's received text.
fn push_mapped(gr: &mut TextGroup, item: u16, idx: u16)
    ensures
        final(gr)@.files == old(gr)@.files,
        final(gr)@.overwritten == old(gr)@.overwritten,
        final(gr)@.mapped == old(gr)@.mapped.push((item, idx)),
{
    gr.mapped_items.push((item, idx));
}

/// Records that text `t` was overwritten.
fn push_overwritten(gr: &mut TextGroup, t: u32)
    ensures
        final(gr)@.files == old(gr)@.files,
        final(gr)@.mapped == old(gr)@.mapped,
        final(gr)@.overwritten == old(gr)@.overwritten.push(t),
{
    gr.overwritten.push(t);
}

/// Gives every placed item's logic the text of receiving it, in the order
/// of the placements (`texts_after`): the map's text group (`talk`) reuses
/// a text it already has for the item; else, when the logic's text was
/// overwritten before, the item's text is added at the end of every
/// language's texts and the logic shows it; else it overwrites the logic's
/// text in every language. Each text is the language's text before the
/// name, the item's name in that language and the text after it
/// (`frames`), padded. Only the text indices of the logic change in the
/// maps.
pub fn received_texts(
    maps: &mut Vec<MapEntities>,
    groups: &mut Vec<TextGroup>,
    talk: &Vec<usize>,
    placed: &Vec<(usize, usize, u16)>,
    names: &Vec<Vec<Vec<u8>>>,
    frames: &Vec<(Vec<u8>, Vec<u8>)>,
)
    requires
        names.len() == frames.len() >= 1,
        groups_ok(groups_view(old(groups)@), names.len() as int),
        texts_ok(text_indices(old(maps)@), groups_view(old(groups)@), placed@, talk@),
        names_ok(placed@, names_view(names@), frames_view(frames@)),
    ensures
        (text_indices(final(maps)@), groups_view(final(groups)@)) == texts_after(
            text_indices(old(maps)@),
            groups_view(old(groups)@),
            placed@,
            placed.len() as int,
            talk@,
            names_view(names@),
            frames_view(frames@),
        ),
        same_but_texts(old(maps)@, final(maps)@),
{
    let ghost nl = names.len() as int;
    let mut k: usize = 0;
    while k < placed.len()
        invariant
            k <= placed.len(),
            nl == names.len() == frames.len() >= 1,
            groups_ok(groups_view(groups@), nl),
            texts_ok(text_indices(maps@), groups_view(groups@), placed@, talk@),
            names_ok(placed@, names_view(names@), frames_view(frames@)),
            (text_indices(maps@), groups_view(groups@)) == texts_after(
                text_indices(old(maps)@),
                groups_view(old(groups)@),
                placed@,
                k as int,
                talk@,
                names_view(names@),
                frames_view(frames@),
            ),
            same_but_texts(old(maps)@, maps@),
        decreases placed.len() - k,
    {
        let p = placed[k];
        let ghost m0 = maps@;
        proof {
            lemma_step_ok(
                text_indices(maps@),
                groups_view(groups@),
                placed@,
                k as int,
                talk@,
                names_view(names@),
                frames_view(frames@),
                nl,
            );
            assert(placed@[k as int] == p);
            assert(seq![p][0] == p);
            assert(texts_ok(text_indices(maps@), groups_view(groups@), seq![p], talk@));
            assert forall|kk: int, l: int| 0 <= kk < 1 && 0 <= l < names.len() implies {
                let item = (#[trigger] seq![p][kk]).2 as int;
                &&& item < (#[trigger] names_view(names@)[l]).len()
                &&& exists|b: int| 0 <= b < names_view(names@)[l][item].len() && names_view(names@)[l][item][b] != 0
                &&& frames_view(frames@)[l].0.len() + names_view(names@)[l][item].len() + frames_view(frames@)[l].1.len() + 4
                    <= usize::MAX
            } by {
                assert(placed@[k as int] == seq![p][kk]);
            }
        }
        receive_one(maps, groups, talk, p, names, frames);
        proof {
            assert forall|mm: int| 0 <= mm < old(maps).len() implies {
                &&& (#[trigger] maps@[mm]).entities@ == old(maps)@[mm].entities@
                &&& maps@[mm].scripts_conditions@ == old(maps)@[mm].scripts_conditions@
                &&& maps@[mm].entity_logics.len() == old(maps)@[mm].entity_logics.len()
                &&& forall|j: int|
                    0 <= j < old(maps)@[mm].entity_logics.len() ==> (#[trigger] maps@[mm].entity_logics@[j]).script
                        == old(maps)@[mm].entity_logics@[j].script && maps@[mm].entity_logics@[j].conditions
                        == old(maps)@[mm].entity_logics@[j].conditions
            } by {
                assert(same_but_texts(m0, maps@));
                assert(m0[mm].entity_logics.len() == old(maps)@[mm].entity_logics.len());
            }
        }
        k += 1;
    }
}

/// What `groups_ok` asks of one group.
pub open spec fn group_ok(gr: TextGroupView, nl: int) -> bool {
    &&& gr.files.len() == nl
    &&& forall|l: int| 0 <= l < nl ==> (#[trigger] gr.files[l]).len() == gr.files[0].len()
    &&& forall|q: int| 0 <= q < gr.mapped.len() ==> (#[trigger] gr.mapped[q]).1 < gr.files[0].len()
}

/// Whether one group has the texts of the `nl` languages, all of one
/// length, with its item text indices within them.
fn check_group(gr: &TextGroup, nl: usize) -> (r: bool)
    requires
        nl >= 1,
    ensures
        r == group_ok(gr@, nl as int),
{
    let ghost v = gr@;
    if gr.files.len() != nl {
        return false;
    }
    let len0 = gr.files[0].len();
    assert(v.files[0].len() == len0);
    let mut l: usize = 0;
    while l < nl
        invariant
            l <= nl == gr.files.len() == v.files.len(),
            v == gr@,
            len0 == v.files[0].len(),
            forall|q: int| 0 <= q < l ==> (#[trigger] v.files[q]).len() == len0,
        decreases nl - l,
    {
        assert(v.files[l as int].len() == gr.files@[l as int].len());
        if gr.files[l].len() != len0 {
            return false;
        }
        l += 1;
    }
    let mut x: usize = 0;
    while x < gr.mapped_items.len()
        invariant
            x <= gr.mapped_items.len(),
            v == gr@,
            v.files.len() == nl >= 1,
            len0 == v.files[0].len(),
            forall|q: int| 0 <= q < nl ==> (#[trigger] v.files[q]).len() == len0,
            forall|q: int| 0 <= q < x ==> (#[trigger] v.mapped[q]).1 < len0,
        decreases gr.mapped_items.len() - x,
    {
        assert(v.mapped[x as int] == gr.mapped_items@[x as int]);
        if gr.mapped_items[x].1 as usize >= len0 {
            return false;
        }
        x += 1;
    }
    true
}

/// Whether every group has the texts of the `nl` languages, all of one
/// length, with its item text indices within them (`groups_ok`).
fn check_groups(groups: &Vec<TextGroup>, nl: usize) -> (r: bool)
    requires
        nl >= 1,
    ensures
        r == groups_ok(groups_view(groups@), nl as int),
{
    let mut g: usize = 0;
    while g < groups.len()
        invariant
            g <= groups.len(),
            nl >= 1,
            forall|q: int| 0 <= q < g ==> group_ok(#[trigger] groups_view(groups@)[q], nl as int),
        decreases groups.len() - g,
    {
        assert(groups_view(groups@)[g as int] == groups@[g as int]@);
        if !check_group(&groups[g], nl) {
            assert(!group_ok(groups_view(groups@)[g as int], nl as int));
            return false;
        }
        g += 1;
    }
    assert forall|q: int| 0 <= q < groups_view(groups@).len() implies group_ok(#[trigger] groups_view(groups@)[q], nl as int) by {}
    true
}

/// Whether every placement's map has a text group and the logic's text
/// index lies within that group's texts (`texts_ok`). The groups must
/// have their first texts.
fn check_texts(
    maps: &Vec<MapEntities>,
    groups: &Vec<TextGroup>,
    talk: &Vec<usize>,
    placed: &Vec<(usize, usize, u16)>,
) -> (r: bool)
    requires
        forall|g: int| 0 <= g < groups.len() ==> (#[trigger] groups@[g]).files.len() >= 1,
    ensures
        r == texts_ok(text_indices(maps@), groups_view(groups@), placed@, talk@),
{
    let ghost texts = text_indices(maps@);
    let ghost gv = groups_view(groups@);
    let mut k: usize = 0;
    while k < placed.len()
        invariant
            k <= placed.len(),
            texts == text_indices(maps@),
            gv == groups_view(groups@),
            forall|g: int| 0 <= g < groups.len() ==> (#[trigger] groups@[g]).files.len() >= 1,
            forall|q: int|
                0 <= q < k ==> {
                    let m = (#[trigger] placed@[q]).0 as int;
                    let j = placed@[q].1 as int;
                    &&& m < texts.len()
                    &&& m < talk@.len()
                    &&& j < texts[m].len()
                    &&& talk@[m] < gv.len()
                    &&& texts[m][j] < gv[talk@[m] as int].files[0].len()
                },
        decreases placed.len() - k,
    {
        let (m, j, _) = placed[k];
        if m >= maps.len() || m >= talk.len() || j >= maps[m].entity_logics.len() || talk[m] >= groups.len() {
            return false;
        }
        let g = talk[m];
        assert(gv[g as int] == groups@[g as int]@);
        assert(texts[m as int][j as int] == maps@[m as int].entity_logics@[j as int].text_index);
        assert(gv[g as int].files[0].len() == groups@[g as int].files@[0].len());
        if maps[m].entity_logics[j].text_index as usize >= groups[g].files[0].len() {
            return false;
        }
        k += 1;
    }
    true
}

/// Whether the names of the placed items exist in every language, hold a
/// byte other than zero, and their texts fit in memory (`names_ok`).
fn check_names(placed: &Vec<(usize, usize, u16)>, names: &Vec<Vec<Vec<u8>>>, frames: &Vec<(Vec<u8>, Vec<u8>)>) -> (r: bool)
    requires
        names.len() == frames.len(),
    ensures
        r == names_ok(placed@, names_view(names@), frames_view(frames@)),
{
    let ghost nv = names_view(names@);
    let ghost fv = frames_view(frames@);
    let mut k: usize = 0;
    while k < placed.len()
        invariant
            k <= placed.len(),
            names.len() == frames.len(),
            nv == names_view(names@),
            fv == frames_view(frames@),
            forall|q: int, l: int|
                0 <= q < k && 0 <= l < nv.len() ==> {
                    let item = (#[trigger] placed@[q]).2 as int;
                    &&& item < (#[trigger] nv[l]).len()
                    &&& exists|b: int| 0 <= b < nv[l][item].len() && nv[l][item][b] != 0
                    &&& fv[l].0.len() + nv[l][item].len() + fv[l].1.len() + 4 <= usize::MAX
                },
        decreases placed.len() - k,
    {
        let item = placed[k].2 as usize;
        let mut l: usize = 0;
        while l < names.len()
            invariant
                k < placed.len(),
                item == placed@[k as int].2,
                l <= names.len() == frames.len(),
                nv == names_view(names@),
                fv == frames_view(frames@),
                forall|q: int, ll: int|
                    0 <= q < k && 0 <= ll < nv.len() ==> {
                        let it = (#[trigger] placed@[q]).2 as int;
                        &&& it < (#[trigger] nv[ll]).len()
                        &&& exists|b: int| 0 <= b < nv[ll][it].len() && nv[ll][it][b] != 0
                        &&& fv[ll].0.len() + nv[ll][it].len() + fv[ll].1.len() + 4 <= usize::MAX
                    },
                forall|ll: int|
                    0 <= ll < l ==> {
                        &&& (item as int) < (#[trigger] nv[ll]).len()
                        &&& exists|b: int| 0 <= b < nv[ll][item as int].len() && nv[ll][item as int][b] != 0
                        &&& fv[ll].0.len() + nv[ll][item as int].len() + fv[ll].1.len() + 4 <= usize::MAX
                    },
            decreases names.len() - l,
        {
            assert(nv[l as int] == names@[l as int]@.map_values(|x: Vec<u8>| x@));
            assert(fv[l as int] == (frames@[l as int].0@, frames@[l as int].1@));
            if item >= names[l].len() {
                return false;
            }
            let name = &names[l][item];
            assert(nv[l as int][item as int] == name@);
            let mut b: usize = 0;
            let mut found = false;
            while b < name.len()
                invariant
                    b <= name.len(),
                    found ==> exists|c: int| 0 <= c < name@.len() && name@[c] != 0,
                    !found ==> forall|c: int| 0 <= c < b ==> name@[c] == 0,
                decreases name.len() - b,
            {
                if name[b] != 0 {
                    found = true;
                }
                b += 1;
            }
            if !found {
                return false;
            }
            let p = frames[l].0.len();
            let q = frames[l].1.len();
            if p > usize::MAX - 4 || name.len() > usize::MAX - 4 - p || q > usize::MAX - 4 - p - name.len() {
                return false;
            }
            l += 1;
        }
        proof {
            assert forall|q: int, ll: int| 0 <= q < k + 1 && 0 <= ll < nv.len() implies {
                let it = (#[trigger] placed@[q]).2 as int;
                &&& it < (#[trigger] nv[ll]).len()
                &&& exists|b: int| 0 <= b < nv[ll][it].len() && nv[ll][it][b] != 0
                &&& fv[ll].0.len() + nv[ll][it].len() + fv[ll].1.len() + 4 <= usize::MAX
            } by {
                if q == k {
                    assert(placed@[q].2 as int == item as int);
                }
            }
        }
        k += 1;
    }
    true
}

/// Whether `received_texts` can be called on these values: as many frames
/// as languages, at least one, and `groups_ok`, `texts_ok` and `names_ok`.
/// A caller that builds the groups and the map-to-group table from the
/// game's files tests them here before handing them over.
pub fn received_texts_ready(
    maps: &Vec<MapEntities>,
    groups: &Vec<TextGroup>,
    talk: &Vec<usize>,
    placed: &Vec<(usize, usize, u16)>,
    names: &Vec<Vec<Vec<u8>>>,
    frames: &Vec<(Vec<u8>, Vec<u8>)>,
) -> (r: bool)
    ensures
        r == {
            &&& names.len() == frames.len()
            &&& names.len() >= 1
            &&& groups_ok(groups_view(groups@), names.len() as int)
            &&& texts_ok(text_indices(maps@), groups_view(groups@), placed@, talk@)
            &&& names_ok(placed@, names_view(names@), frames_view(frames@))
        },
{
    if names.len() != frames.len() || names.len() == 0 {
        return false;
    }
    if !check_groups(groups, names.len()) {
        return false;
    }
    proof {
        assert forall|g: int| 0 <= g < groups.len() implies (#[trigger] groups@[g]).files.len() >= 1 by {
            assert(groups_view(groups@)[g] == groups@[g]@);
        }
    }
    if !check_texts(maps, groups, talk, placed) {
        return false;
    }
    check_names(placed, names, frames)
}

} // verus!
