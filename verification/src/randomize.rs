//! The randomization of a whole game: the randomizers that a preset asks
//! for, run in turn on the game's records with one generator.

use crate::card_game::CardGameData;
use crate::fixes::same_but_offsets;
use crate::consts::TRICERAMON_ID;
use crate::encounters::{
    drops_exchanged, encounters_shuffled, first_stats, first_tnt, has_stats, open_ids, skipped, tnt_triceramon,
};
use crate::entities::MapEntities;
use crate::entities::boxes_fit;
use crate::item_boxes::{item_boxes, maps_placed_from, place_maps};
use crate::json::{Encounters, GroupStrategy, Maps, Preset, Scaling, ShopItems, TNTStrategy};
use crate::maps::{
    backgrounds, background_copies, backgrounds_drawn, battles_drawn, battles_redrawn, color, colored_before, colored_by,
    draws_needed, grouped_as, original_backgrounds, random_fight_backgrounds, same_but_background, same_but_color,
    total_battles, MapObject,
};
use crate::parties::{parties_patch, PartiesError};
use crate::rng::seeded_rng;
use crate::scaling::{enemies_fit, enemies_scaled, enemies_scaled_by, galacticmon_fits, galacticmon_fixed, restored};
use crate::shops::{is_shoppable, shoppable_count, ShopsError};
use crate::structs::{DigivolutionData, EncounterData, EnemyStats, ItemShopData, MoveData, Shop};
use crate::util::{draw_count, occurrences, strictly_increasing};
use rand_xoshiro::Xoshiro256StarStar;
use vstd::prelude::*;

verus! {

/// What the color step does: nothing when `on` is off, else what `color`
/// promises.
pub open spec fn color_step(on: bool, old_m: Seq<MapObject>, new_m: Seq<MapObject>) -> bool {
    if !on {
        new_m == old_m
    } else {
        &&& new_m.len() == old_m.len()
        &&& forall|i: int| 0 <= i < old_m.len() ==> same_but_color(#[trigger] old_m[i], new_m[i])
        &&& exists|draws: Seq<u64>|
            #![trigger colored_by(old_m, new_m, draws)]
            draws.len() == 3 * colored_before(old_m, old_m.len() as int) && colored_by(old_m, new_m, draws)
    }
}

/// What the backgrounds step does: nothing when `on` is off, else what
/// `backgrounds` promises.
pub open spec fn backgrounds_step(on: bool, shuffles: u8, old_m: Seq<MapObject>, new_m: Seq<MapObject>) -> bool {
    if !on {
        new_m == old_m
    } else {
        &&& new_m.len() == old_m.len()
        &&& forall|i: int| 0 <= i < old_m.len() ==> same_but_background(#[trigger] old_m[i], new_m[i])
        &&& forall|i: int|
            0 <= i < old_m.len() ==> original_backgrounds(old_m).contains(#[trigger] new_m[i].background_modified)
        &&& forall|b: u16|
            original_backgrounds(old_m).contains(b) ==> background_copies(old_m) - 1 <= #[trigger] occurrences(
                crate::maps::modified_backgrounds(new_m),
                b,
            ) <= background_copies(old_m)
        &&& exists|copy_draws: Seq<Seq<usize>>, final_draws: Seq<usize>|
            #![trigger backgrounds_drawn(old_m, new_m, copy_draws, final_draws)]
            {
                &&& copy_draws.len() == background_copies(old_m)
                &&& forall|d: int| 0 <= d < copy_draws.len() ==> (#[trigger] copy_draws[d]).len() == draw_count(
                    original_backgrounds(old_m).to_set().len() as int,
                    shuffles as int,
                )
                &&& final_draws.len() == draw_count(old_m.len() as int, shuffles as int)
                &&& backgrounds_drawn(old_m, new_m, copy_draws, final_draws)
            }
    }
}

/// What the item boxes step does: nothing when `on` is off, else what
/// `item_boxes` promises, with the placements it gives back.
pub open spec fn item_boxes_step(
    on: bool,
    sprites: Seq<u16>,
    data: Seq<ItemShopData>,
    items_only: ShopItems,
    old_m: Seq<MapEntities>,
    new_m: Seq<MapEntities>,
    placed: Seq<(usize, usize, u16)>,
) -> bool {
    if !on {
        new_m == old_m && placed.len() == 0
    } else {
        exists|pool: Seq<u16>, draws: Seq<u64>|
            #![trigger place_maps(old_m, 0, sprites, pool, draws, 0)]
            {
                &&& strictly_increasing(pool)
                &&& forall|x: u16| #[trigger] pool.contains(x) <==> is_shoppable(data, items_only, x as int)
                &&& draws.len() == placed.len()
                &&& maps_placed_from(old_m, new_m, 0, place_maps(old_m, 0, sprites, pool, draws, 0).0)
                &&& placed == place_maps(old_m, 0, sprites, pool, draws, 0).2
            }
    }
}

/// What the fight backgrounds step does: nothing when `on` is off, else
/// what `random_fight_backgrounds` promises.
pub open spec fn fight_step(on: bool, strategy: GroupStrategy, old_m: Seq<MapObject>, new_m: Seq<MapObject>) -> bool {
    if !on {
        new_m == old_m
    } else {
        &&& battles_redrawn(old_m, new_m, crate::maps::BattleField::Stage, Seq::empty())
        &&& grouped_as(new_m, crate::maps::BattleField::Stage, strategy)
        &&& exists|draws: Seq<u32>|
            #![trigger battles_drawn(old_m, new_m, crate::maps::BattleField::Stage, Seq::empty(), strategy, draws)]
            draws.len() == draws_needed(old_m, strategy) && battles_drawn(
                old_m,
                new_m,
                crate::maps::BattleField::Stage,
                Seq::empty(),
                strategy,
                draws,
            )
    }
}

/// The preset's map settings can be carried out on these maps: at least
/// one map and not too many for the backgrounds, item boxes that fit and
/// an item to put in them, and a countable number of battles.
pub open spec fn maps_ready(
    p: Maps,
    maps: Seq<MapObject>,
    entities: Seq<MapEntities>,
    sprites: Seq<u16>,
    data: Seq<ItemShopData>,
) -> bool {
    &&& p.backgrounds ==> 1 <= maps.len() <= usize::MAX / 2
    &&& p.item_boxes ==> {
        &&& data.len() <= 0x10000
        &&& shoppable_count(data, p.item_boxes_items_only, data.len() as int) >= 1
        &&& forall|q: int| 0 <= q < entities.len() ==> boxes_fit(#[trigger] entities[q], sprites)
    }
    &&& p.fight_backgrounds ==> total_battles(maps) <= usize::MAX
}

/// Battles are counted from the tables alone.
proof fn lemma_total_battles_same(a: Seq<MapObject>, b: Seq<MapObject>)
    requires
        a.len() == b.len(),
        forall|i: int| 0 <= i < a.len() ==> (#[trigger] a[i]).stage_encounters == b[i].stage_encounters,
    ensures
        total_battles(a) == total_battles(b),
    decreases a.len(),
{
    if a.len() > 0 {
        lemma_total_battles_same(a.drop_last(), b.drop_last());
        assert(a.last().stage_encounters == b.last().stage_encounters);
    }
}

/// Randomizes the maps as the preset asks, in this order: their colors,
/// their backgrounds, the items of the item boxes (whose placements it
/// gives back, for the received-item texts) and the backgrounds of their
/// fights. Each step does what its function promises, on what the steps
/// before it left.
pub fn maps_patch(
    p: &Maps,
    shuffles: u8,
    maps: &mut Vec<MapObject>,
    entities: &mut Vec<MapEntities>,
    sprites: &Vec<u16>,
    data: &Vec<ItemShopData>,
    rng: &mut Xoshiro256StarStar,
) -> (placed: Vec<(usize, usize, u16)>)
    requires
        maps_ready(*p, old(maps)@, old(entities)@, sprites@, data@),
    ensures
        item_boxes_step(p.item_boxes, sprites@, data@, p.item_boxes_items_only, old(entities)@, final(entities)@, placed@),
        exists|m1: Seq<MapObject>, m2: Seq<MapObject>|
            #![trigger color_step(p.color, old(maps)@, m1), backgrounds_step(p.backgrounds, shuffles, m1, m2)]
            {
                &&& color_step(p.color, old(maps)@, m1)
                &&& backgrounds_step(p.backgrounds, shuffles, m1, m2)
                &&& fight_step(p.fight_backgrounds, p.group_strategy, m2, final(maps)@)
            },
{
    let ghost m0 = maps@;
    if p.color {
        color(maps, rng);
    }
    let ghost m1 = maps@;
    if p.backgrounds {
        backgrounds(maps, shuffles, rng);
    }
    let ghost m2 = maps@;
    let placed = if p.item_boxes {
        item_boxes(entities, sprites, data, p.item_boxes_items_only, rng)
    } else {
        Vec::new()
    };
    if p.fight_backgrounds {
        proof {
            if p.color {
                lemma_total_battles_same(m0, m1);
            }
            if p.backgrounds {
                lemma_total_battles_same(m1, m2);
            }
        }
        random_fight_backgrounds(maps, p.group_strategy, rng);
    }
    proof {
        assert(color_step(p.color, m0, m1));
        assert(backgrounds_step(p.backgrounds, shuffles, m1, m2));
        assert(fight_step(p.fight_backgrounds, p.group_strategy, m2, maps@));
    }
    placed
}

/// The game's records that the randomization reads and changes.
pub struct GameData {
    pub encounters_original: Vec<EncounterData>,
    pub encounters: Vec<EncounterData>,
    pub enemy_stats: Vec<EnemyStats>,
    pub moves: Vec<MoveData>,
    pub parties: Vec<u8>,
    pub rookies_original: Vec<DigivolutionData>,
    pub rookies: Vec<DigivolutionData>,
    pub digivolutions_original: Vec<DigivolutionData>,
    pub digivolutions: Vec<DigivolutionData>,
    pub scaling_records: Vec<DigivolutionData>,
    pub item_shop_original: Vec<ItemShopData>,
    pub item_shop_data: Vec<ItemShopData>,
    pub shops: Vec<Shop>,
    pub shop_items: Vec<u16>,
    pub card_game: CardGameData,
    pub maps: Vec<MapObject>,
    pub map_entities: Vec<MapEntities>,
    pub item_box_sprites: Vec<u16>,
}

/// Why a randomization stopped.
#[derive(Debug, Clone, Copy, PartialEq, Eq, Structural)]
pub enum RandomizeError {
    /// A stat or resistance distribution drew weights that are all zero
    /// for some rookie.
    Parties(PartiesError),
    /// The shops were to be limited, but there is no shop.
    Shops(ShopsError),
}

/// The encounter settings can be carried out on these records
/// (`encounters::patch`'s requirements).
pub open spec fn encounters_ready(
    p: Encounters,
    original: Seq<EncounterData>,
    modified: Seq<EncounterData>,
    enemy_stats: Seq<EnemyStats>,
) -> bool {
    &&& original.len() <= usize::MAX / 2
    &&& open_ids(original, p).len() >= 1
    &&& open_ids(modified, p).len() <= open_ids(original, p).len()
    &&& p.strategy == TNTStrategy::Swap ==> {
        &&& has_stats(enemy_stats, TRICERAMON_ID)
        &&& exists|k: int| 0 <= k < original.len() && k < modified.len() && tnt_triceramon(#[trigger] original[k])
        &&& forall|k: int| first_tnt(original, k) ==> has_stats(enemy_stats, modified[k].digimon_id as u16)
        &&& forall|k: int| 0 <= k < original.len() && !skipped(#[trigger] original[k], p) ==> has_stats(enemy_stats, original[k].digimon_id as u16)
    }
}

/// What the encounters step does: nothing when `on` is off, else what
/// `encounters::patch` promises.
pub open spec fn encounters_step(
    on: bool,
    p: Encounters,
    original: Seq<EncounterData>,
    old_e: Seq<EncounterData>,
    new_e: Seq<EncounterData>,
    old_s: Seq<EnemyStats>,
    new_s: Seq<EnemyStats>,
) -> bool {
    if !on {
        new_e == old_e && new_s == old_s
    } else {
        &&& encounters_shuffled(p, original, old_e, new_e)
        &&& p.strategy != TNTStrategy::Swap ==> new_s == old_s
        &&& p.strategy == TNTStrategy::Swap ==> forall|t: int, k: int, s: int|
            #![trigger first_stats(old_s, TRICERAMON_ID, t), first_tnt(original, k), first_stats(old_s, new_e[k].digimon_id as u16, s)]
            first_stats(old_s, TRICERAMON_ID, t) && first_tnt(original, k) && first_stats(old_s, new_e[k].digimon_id as u16, s)
                ==> drops_exchanged(old_s, new_s, t, s)
    }
}

/// The scaling settings can be carried out on these records, whatever the
/// drawn modifiers (`scaling::patch`'s requirements).
pub open spec fn scaling_ready(
    p: Scaling,
    original: Seq<EncounterData>,
    encounters: Seq<EncounterData>,
    enemy_stats: Seq<EnemyStats>,
    moves: Seq<MoveData>,
) -> bool {
    &&& encounters.len() >= original.len()
    &&& enemies_fit(p, restored(original, encounters), enemy_stats, moves)
    &&& forall|mid_e: Seq<EncounterData>, mid_s: Seq<EnemyStats>|
        #[trigger] enemies_scaled(p, restored(original, encounters), mid_e, enemy_stats, mid_s, moves) ==> galacticmon_fits(
            original,
            mid_e,
            mid_s,
            moves,
        )
}

/// What the scaling step does: nothing when `on` is off, else what
/// `scaling::patch` promises.
pub open spec fn scaling_step(
    on: bool,
    p: Scaling,
    original: Seq<EncounterData>,
    old_e: Seq<EncounterData>,
    new_e: Seq<EncounterData>,
    old_s: Seq<EnemyStats>,
    new_s: Seq<EnemyStats>,
    old_m: Seq<MoveData>,
    new_m: Seq<MoveData>,
) -> bool {
    if !on {
        new_e == old_e && new_s == old_s && new_m == old_m
    } else {
        exists|draws: Seq<u64>, mid_e: Seq<EncounterData>, mid_s: Seq<EnemyStats>|
            #[trigger] enemies_scaled_by(p, restored(original, old_e), mid_e, old_s, mid_s, old_m, draws)
                && galacticmon_fixed(original, mid_e, new_e, mid_s, new_s, old_m, new_m)
    }
}

/// The game can be randomized as the preset asks: each enabled step's
/// requirements hold of the records it is handed. Scaling follows the
/// encounter shuffle, so its requirements must hold whatever that
/// shuffle gives.
pub open spec fn randomize_ready(p: Preset, g: GameData) -> bool {
    let r = p.randomizer;
    &&& r.encounters.enabled ==> encounters_ready(r.encounters, g.encounters_original@, g.encounters@, g.enemy_stats@)
    &&& r.parties.enabled ==> crate::parties::parties_ready(
        r.parties,
        g.parties@,
        g.rookies_original@,
        g.rookies@,
        g.digivolutions_original@,
        g.digivolutions@,
    )
    &&& p.scaling.enabled ==> forall|e1: Seq<EncounterData>, s1: Seq<EnemyStats>|
        #[trigger] encounters_step(r.encounters.enabled, r.encounters, g.encounters_original@, g.encounters@, e1, g.enemy_stats@, s1)
            ==> scaling_ready(p.scaling, g.encounters_original@, e1, s1, g.moves@)
    &&& p.fixes.scaling ==> {
        &&& forall|q: int, k: int|
            0 <= q < g.scaling_records.len() && 0 <= k < g.scaling_records@[q].stat_offsets.len()
                ==> #[trigger] g.scaling_records@[q].stat_offsets@[k] >= 1
        &&& forall|q: int, k: int|
            0 <= q < g.scaling_records.len() && 0 <= k < g.scaling_records@[q].res_offsets.len()
                ==> #[trigger] g.scaling_records@[q].res_offsets@[k] >= 1
    }
    &&& r.shops.enabled ==> crate::shops::shops_ready(r.shops, g.item_shop_data@, g.shops@, g.shop_items@)
    &&& r.card_game.enabled ==> crate::card_game::card_game_ready(r.card_game, g.card_game)
    &&& r.maps.enabled ==> maps_ready(r.maps, g.maps@, g.map_entities@, g.item_box_sprites@, g.item_shop_original@)
}

/// What the scaling fix does: nothing when `on` is off, else every
/// offset of the records lowered by one.
pub open spec fn fixes_step(on: bool, old_r: Seq<DigivolutionData>, new_r: Seq<DigivolutionData>) -> bool {
    if !on {
        new_r == old_r
    } else {
        &&& new_r.len() == old_r.len()
        &&& forall|q: int| 0 <= q < old_r.len() ==> {
            &&& same_but_offsets(#[trigger] old_r[q], new_r[q])
            &&& new_r[q].stat_offsets@ == old_r[q].stat_offsets@.map_values(|x: u8| (x - 1) as u8)
            &&& new_r[q].res_offsets@ == old_r[q].res_offsets@.map_values(|x: u8| (x - 1) as u8)
        }
    }
}

/// The records that the randomization only reads are as they were.
pub open spec fn read_only_kept(a: GameData, b: GameData) -> bool {
    &&& b.encounters_original@ == a.encounters_original@
    &&& b.rookies_original@ == a.rookies_original@
    &&& b.digivolutions_original@ == a.digivolutions_original@
    &&& b.item_shop_original@ == a.item_shop_original@
    &&& b.item_box_sprites@ == a.item_box_sprites@
}

/// What a randomization that went through did to the game, step by step
/// in the order that `randomize` takes them: encounters, parties,
/// scaling, the scaling fix, shops, card game and maps.
pub open spec fn randomized(p: Preset, a: GameData, b: GameData, placed: Seq<(usize, usize, u16)>) -> bool {
    let r = p.randomizer;
    &&& read_only_kept(a, b)
    &&& exists|e1: Seq<EncounterData>, s1: Seq<EnemyStats>|
        #![trigger encounters_step(r.encounters.enabled, r.encounters, a.encounters_original@, a.encounters@, e1, a.enemy_stats@, s1)]
        {
            &&& encounters_step(r.encounters.enabled, r.encounters, a.encounters_original@, a.encounters@, e1, a.enemy_stats@, s1)
            &&& scaling_step(p.scaling.enabled, p.scaling, a.encounters_original@, e1, b.encounters@, s1, b.enemy_stats@, a.moves@, b.moves@)
        }
    &&& crate::parties::parties_step(r.parties.enabled && r.parties.parties, r.shuffles, a.parties@, b.parties@)
    &&& r.parties.enabled ==> crate::parties::rookies_patched(
        r.parties,
        r.shuffles,
        a.rookies_original@,
        a.rookies@,
        b.rookies@,
        a.digivolutions_original@,
        a.digivolutions@,
        b.digivolutions@,
    )
    &&& !r.parties.enabled ==> b.rookies@ == a.rookies@ && b.digivolutions@ == a.digivolutions@
    &&& fixes_step(p.fixes.scaling, a.scaling_records@, b.scaling_records@)
    &&& crate::shops::shops_step(
        r.shops.enabled,
        r.shops,
        a.item_shop_data@,
        b.item_shop_data@,
        a.shops@,
        b.shops@,
        a.shop_items@,
        b.shop_items@,
    )
    &&& crate::card_game::card_game_step(r.card_game.enabled, r.card_game, a.card_game, b.card_game)
    &&& if r.maps.enabled {
        &&& item_boxes_step(
            r.maps.item_boxes,
            a.item_box_sprites@,
            a.item_shop_original@,
            r.maps.item_boxes_items_only,
            a.map_entities@,
            b.map_entities@,
            placed,
        )
        &&& exists|m1: Seq<MapObject>, m2: Seq<MapObject>|
            #![trigger color_step(r.maps.color, a.maps@, m1), backgrounds_step(r.maps.backgrounds, r.shuffles, m1, m2)]
            {
                &&& color_step(r.maps.color, a.maps@, m1)
                &&& backgrounds_step(r.maps.backgrounds, r.shuffles, m1, m2)
                &&& fight_step(r.maps.fight_backgrounds, r.maps.group_strategy, m2, b.maps@)
            }
    } else {
        b.maps@ == a.maps@ && b.map_entities@ == a.map_entities@ && placed.len() == 0
    }
}

/// The encounters step and then the scaling step, as the preset asks.
fn encounters_and_scaling(
    preset: &Preset,
    original: &Vec<EncounterData>,
    encounters: &mut Vec<EncounterData>,
    enemy_stats: &mut Vec<EnemyStats>,
    moves: &mut Vec<MoveData>,
    rng: &mut Xoshiro256StarStar,
)
    requires
        preset.randomizer.encounters.enabled ==> encounters_ready(preset.randomizer.encounters, original@, old(encounters)@, old(enemy_stats)@),
        preset.scaling.enabled ==> forall|e1: Seq<EncounterData>, s1: Seq<EnemyStats>|
            #[trigger] encounters_step(preset.randomizer.encounters.enabled, preset.randomizer.encounters, original@, old(encounters)@, e1, old(enemy_stats)@, s1)
                ==> scaling_ready(preset.scaling, original@, e1, s1, old(moves)@),
    ensures
        exists|e1: Seq<EncounterData>, s1: Seq<EnemyStats>|
            #![trigger encounters_step(preset.randomizer.encounters.enabled, preset.randomizer.encounters, original@, old(encounters)@, e1, old(enemy_stats)@, s1)]
            {
                &&& encounters_step(preset.randomizer.encounters.enabled, preset.randomizer.encounters, original@, old(encounters)@, e1, old(enemy_stats)@, s1)
                &&& scaling_step(preset.scaling.enabled, preset.scaling, original@, e1, final(encounters)@, s1, final(enemy_stats)@, old(moves)@, final(moves)@)
            },
{
    let r = &preset.randomizer;
    if r.encounters.enabled {
        crate::encounters::patch(&r.encounters, r.shuffles, original, encounters, enemy_stats, rng);
    }
    let ghost e1 = encounters@;
    let ghost s1 = enemy_stats@;
    proof {
        assert(encounters_step(r.encounters.enabled, r.encounters, original@, old(encounters)@, e1, old(enemy_stats)@, s1));
    }
    if preset.scaling.enabled {
        proof {
            assert(scaling_ready(preset.scaling, original@, e1, s1, old(moves)@));
        }
        crate::scaling::patch(&preset.scaling, original, encounters, enemy_stats, moves, rng);
    }
    proof {
        assert(scaling_step(preset.scaling.enabled, preset.scaling, original@, e1, encounters@, s1, enemy_stats@, old(moves)@, moves@));
    }
}

/// Runs the randomizers that the preset asks for on the game, with the
/// generator `rng`, in this order: encounters, parties, scaling (whose
/// hit point factor is applied by the caller), the scaling fix, shops,
/// card game and maps. It gives back the item box placements, for the
/// received-item texts. A party distribution whose drawn weights are all
/// zero for some rookie stops it with `Parties(ZeroWeights)`, and limited
/// shops without a shop with `Shops(EmptyShops)`, after the steps before
/// them; else every step does what its function promises
/// (`randomized`).
#[verifier::spinoff_prover]
#[verifier::rlimit(50)]
pub fn randomize(preset: &Preset, game: &mut GameData, rng: &mut Xoshiro256StarStar) -> (res: Result<
    Vec<(usize, usize, u16)>,
    RandomizeError,
>)
    requires
        randomize_ready(*preset, *old(game)),
    ensures
        res matches Ok(placed) ==> randomized(*preset, *old(game), *final(game), placed@),
        res matches Err(e) ==> {
            ||| e == RandomizeError::Parties(PartiesError::ZeroWeights) && preset.randomizer.parties.enabled && (
            preset.randomizer.parties.stat_distribution || preset.randomizer.parties.res_distribution)
            ||| e == RandomizeError::Shops(ShopsError::EmptyShops) && preset.randomizer.shops.enabled
                && preset.randomizer.shops.limit_shop_items_enabled && old(game).shops.len() == 0
        },
{
    let r = &preset.randomizer;
    let ghost g0 = *game;
    if r.parties.enabled {
        let pr = parties_patch(
            &r.parties,
            r.shuffles,
            &mut game.parties,
            &game.rookies_original,
            &mut game.rookies,
            &game.digivolutions_original,
            &mut game.digivolutions,
            rng,
        );
        match pr {
            Err(e) => {
                return Err(RandomizeError::Parties(e));
            },
            Ok(_) => {},
        }
    }
    encounters_and_scaling(
        preset,
        &game.encounters_original,
        &mut game.encounters,
        &mut game.enemy_stats,
        &mut game.moves,
        rng,
    );
    if preset.fixes.scaling {
        crate::fixes::scaling(&mut game.scaling_records);
    }
    if r.shops.enabled {
        let sr = crate::shops::patch(&r.shops, &mut game.item_shop_data, &mut game.shops, &mut game.shop_items, rng);
        match sr {
            Err(e) => {
                return Err(RandomizeError::Shops(e));
            },
            Ok(_) => {},
        }
    }
    if r.card_game.enabled {
        crate::card_game::patch(&r.card_game, r.shuffles, &mut game.card_game, rng);
    }
    let placed = if r.maps.enabled {
        maps_patch(
            &r.maps,
            r.shuffles,
            &mut game.maps,
            &mut game.map_entities,
            &game.item_box_sprites,
            &game.item_shop_original,
            rng,
        )
    } else {
        Vec::new()
    };
    Ok(placed)
}

/// Randomizes the game as `randomize` does, with the generator that the
/// preset's seed gives (`SeedableRng::seed_from_u64`).
pub fn patch(preset: &Preset, game: &mut GameData) -> (res: Result<Vec<(usize, usize, u16)>, RandomizeError>)
    requires
        randomize_ready(*preset, *old(game)),
    ensures
        res matches Ok(placed) ==> randomized(*preset, *old(game), *final(game), placed@),
        res matches Err(e) ==> {
            ||| e == RandomizeError::Parties(PartiesError::ZeroWeights) && preset.randomizer.parties.enabled && (
            preset.randomizer.parties.stat_distribution || preset.randomizer.parties.res_distribution)
            ||| e == RandomizeError::Shops(ShopsError::EmptyShops) && preset.randomizer.shops.enabled
                && preset.randomizer.shops.limit_shop_items_enabled && old(game).shops.len() == 0
        },
{
    let mut rng = seeded_rng(preset.randomizer.seed);
    randomize(preset, game, &mut rng)
}

} // verus!
