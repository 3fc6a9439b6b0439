use dmw3_randomizer::card_game::CardGameData;
use dmw3_randomizer::json::{Fixes, GroupStrategy, Preset, Randomizer, Scaling};
use dmw3_randomizer::maps::{
    battle_music_grouped_with_draws, random_fight_backgrounds_with_draws, EncounterTable, MapColor, MapObject,
    MusicPool, MusicSet, StageEncounter,
};
use dmw3_randomizer::randomize::{patch, randomize, GameData, RandomizeError};
use dmw3_randomizer::shops::ShopsError;
use dmw3_randomizer::structs::DigivolutionData;
use rand_xoshiro::rand_core::SeedableRng;
use rand_xoshiro::Xoshiro256StarStar;

fn battle(team_id: u32, music: u32) -> StageEncounter {
    StageEncounter { team_id, stage: 0, music }
}

fn table(battles: Vec<StageEncounter>) -> Option<EncounterTable> {
    Some(EncounterTable { original: battles.clone(), modified: battles })
}

fn map(music: Vec<MusicSet>, tables: Vec<Option<EncounterTable>>) -> MapObject {
    MapObject {
        background_original: 1,
        background_modified: 1,
        color: Some(MapColor { red: 1, green: 2, blue: 3 }),
        music_original: music.clone(),
        music_modified: music,
        stage_encounters: tables,
    }
}

fn set(sep_track: u16, sep_file: u16) -> MusicSet {
    MusicSet { sep_track, sep_file }
}

fn two_maps() -> Vec<MapObject> {
    vec![
        map(vec![set(3, 10)], vec![table(vec![battle(5, 0), battle(0, 0)]), None]),
        map(vec![set(1, 20)], vec![table(vec![battle(5, 0), battle(6, 0)])]),
    ]
}

fn stages(maps: &Vec<MapObject>) -> Vec<u32> {
    maps.iter()
        .flat_map(|m| m.stage_encounters.iter().flatten().flat_map(|t| t.modified.iter().map(|b| b.stage)))
        .collect()
}

fn musics(maps: &Vec<MapObject>) -> Vec<u32> {
    maps.iter()
        .flat_map(|m| m.stage_encounters.iter().flatten().flat_map(|t| t.modified.iter().map(|b| b.music)))
        .collect()
}

#[test]
fn fight_backgrounds_each_battle_its_draw() {
    let mut maps = two_maps();
    random_fight_backgrounds_with_draws(&mut maps, GroupStrategy::Ungrouped, &vec![60, 1, 2, 3]);
    // 60 modulo the 57 backgrounds is 3
    assert_eq!(stages(&maps), vec![3, 1, 2, 3]);
}

#[test]
fn fight_backgrounds_one_draw_per_team() {
    let mut maps = two_maps();
    random_fight_backgrounds_with_draws(&mut maps, GroupStrategy::Party, &vec![60, 7, 9]);
    assert_eq!(stages(&maps), vec![3, 7, 3, 9]);
    let mut maps = two_maps();
    random_fight_backgrounds_with_draws(&mut maps, GroupStrategy::ByMap, &vec![60, 7, 9, 11]);
    assert_eq!(stages(&maps), vec![3, 7, 9, 11]);
}

#[test]
fn grouped_battle_music_from_draws() {
    let mut maps = two_maps();
    // pool in increasing order: (1, 20), (3, 10)
    battle_music_grouped_with_draws(&mut maps, MusicPool::Overworld, GroupStrategy::Party, &vec![1, 0, 3]);
    assert_eq!(musics(&maps), vec![10 << 16, 20 << 16, 10 << 16, 10 << 16]);
}

fn record(offset: u8) -> DigivolutionData {
    DigivolutionData {
        digimon_id: 1,
        str: 1,
        def: 2,
        spt: 3,
        wis: 4,
        spd: 5,
        chr: 6,
        fir_res: 7,
        wtr_res: 8,
        ice_res: 9,
        wnd_res: 10,
        thd_res: 11,
        mch_res: 12,
        drk_res: 13,
        attack: 0,
        tech: vec![],
        ori_tech: 0,
        dv_tech: 0,
        psn_rate: 0,
        par_rate: 0,
        cnf_rate: 0,
        slp_rate: 0,
        ko_rate: 0,
        tech_learn_level: vec![],
        tech_load_level: vec![],
        unk0: 0,
        dv: 0,
        unk1: 0,
        exp_modifier: 3,
        unk: 0,
        hp_modifier: 4,
        mp_modifier: 5,
        stat_offsets: vec![offset; 5],
        res_offsets: vec![offset; 7],
        unk_arr_1: vec![],
    }
}

fn empty_game() -> GameData {
    GameData {
        encounters_original: vec![],
        encounters: vec![],
        enemy_stats: vec![],
        moves: vec![],
        parties: vec![0, 1, 2, 3, 4, 5, 6, 7, 0],
        rookies_original: vec![],
        rookies: vec![],
        digivolutions_original: vec![],
        digivolutions: vec![],
        scaling_records: vec![record(3)],
        item_shop_original: vec![],
        item_shop_data: vec![],
        shops: vec![],
        shop_items: vec![],
        card_game: CardGameData {
            card_pricing: vec![],
            card_shop_count: 0,
            card_shop_items: vec![],
            booster_count: 0,
            booster_items_original: vec![],
            booster_items: vec![],
        },
        maps: two_maps(),
        map_entities: vec![],
        item_box_sprites: vec![],
    }
}

fn quiet_preset() -> Preset {
    let mut randomizer = Randomizer::default();
    randomizer.seed = 7;
    randomizer.encounters.enabled = false;
    randomizer.parties.enabled = false;
    randomizer.shops.enabled = false;
    randomizer.card_game.enabled = false;
    randomizer.maps.enabled = false;
    let mut scaling = Scaling::default();
    scaling.enabled = false;
    Preset { randomizer, fixes: Fixes { scaling: false }, scaling }
}

#[test]
fn randomize_nothing_asked() {
    let mut game = empty_game();
    let mut rng = Xoshiro256StarStar::seed_from_u64(1);
    let r = randomize(&quiet_preset(), &mut game, &mut rng);
    assert_eq!(r, Ok(vec![]));
    assert_eq!(game.parties, vec![0, 1, 2, 3, 4, 5, 6, 7, 0]);
    assert_eq!(game.scaling_records[0].stat_offsets, vec![3; 5]);
    assert_eq!(stages(&game.maps), vec![0, 0, 0, 0]);
}

#[test]
fn randomize_scaling_fix_and_fights() {
    let mut preset = quiet_preset();
    preset.fixes.scaling = true;
    preset.randomizer.maps.enabled = true;
    preset.randomizer.maps.color = false;
    preset.randomizer.maps.backgrounds = false;
    preset.randomizer.maps.item_boxes = false;
    preset.randomizer.maps.fight_backgrounds = true;
    preset.randomizer.maps.group_strategy = GroupStrategy::Ungrouped;
    let mut game = empty_game();
    let r = patch(&preset, &mut game);
    assert_eq!(r, Ok(vec![]));
    assert_eq!(game.scaling_records[0].stat_offsets, vec![2; 5]);
    assert_eq!(game.scaling_records[0].res_offsets, vec![2; 7]);
    assert!(stages(&game.maps).iter().all(|s| *s < 0x39));
    // the same seed gives the same fights
    let mut again = empty_game();
    patch(&preset, &mut again).unwrap();
    assert_eq!(stages(&again.maps), stages(&game.maps));
}

#[test]
fn randomize_limited_shops_without_shops() {
    let mut preset = quiet_preset();
    preset.randomizer.shops.enabled = true;
    preset.randomizer.shops.limit_shop_items_enabled = true;
    preset.randomizer.shops.limit_shop_items = 0;
    let mut game = empty_game();
    let mut rng = Xoshiro256StarStar::seed_from_u64(2);
    let r = randomize(&preset, &mut game, &mut rng);
    assert_eq!(r, Err(RandomizeError::Shops(ShopsError::EmptyShops)));
}

#[test]
fn randomize_parties_from_seed() {
    let mut preset = quiet_preset();
    preset.randomizer.parties.enabled = true;
    preset.randomizer.parties.parties = true;
    preset.randomizer.parties.stat_distribution = false;
    preset.randomizer.parties.res_distribution = false;
    preset.randomizer.parties.learned_tech = false;
    preset.randomizer.parties.signatures = false;
    preset.randomizer.parties.exp_modifier = false;
    let mut game = empty_game();
    assert_eq!(patch(&preset, &mut game), Ok(vec![]));
    let mut members: Vec<u8> = game.parties.clone();
    members.sort();
    members.dedup();
    assert!(members.iter().all(|m| *m < 8));
}
