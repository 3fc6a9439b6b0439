use dmw3_randomizer::consts::{CARDMON_MIN, GALACTICMON_1ST_PHASE, TRICERAMON_ID, ZANBAMON_ID};
use dmw3_randomizer::encounters::{patch as shuffle_encounters, skip};
use dmw3_randomizer::fixes::scaling as lower_offsets;
use dmw3_randomizer::json::{Encounters, Scaling, TNTStrategy};
use dmw3_randomizer::scaling::patch as scale;
use dmw3_randomizer::structs::{DigivolutionData, EncounterData, EnemyStats, MoveData, Moveset};
use rand_xoshiro::rand_core::SeedableRng;
use rand_xoshiro::Xoshiro256StarStar;

fn enc(digimon_id: u32, lv: u16, multiplier: u16) -> EncounterData {
    EncounterData { digimon_id, lv, max_hp: 100 + lv, max_mp: 10, multiplier }
}

fn moveset() -> Moveset {
    Moveset { action: 0, comparator: 0, value: 0 }
}

fn stats(digimon_id: u16, item: u16, rate: u16) -> EnemyStats {
    EnemyStats {
        digimon_id,
        droppable_item: item,
        drop_rate: rate,
        some_index: 0,
        attack: 0,
        move_1: 0,
        move_2: 0,
        str: 10,
        def: 10,
        spt: 10,
        wis: 10,
        spd: 10,
        fir_res: 10,
        wtr_res: 10,
        ice_res: 10,
        wnd_res: 10,
        thd_res: 10,
        mch_res: 10,
        drk_res: 10,
        psn_rate: 0,
        par_rate: 0,
        cnf_rate: 0,
        slp_rate: 0,
        ko_rate: 0,
        digimon_type: 0,
        moveset_1: moveset(),
        moveset_2: moveset(),
        moveset_3: moveset(),
        moveset_4: moveset(),
        counter_moveset: moveset(),
    }
}

fn move_with_power(power: u16) -> MoveData {
    MoveData {
        mp: 0,
        power,
        unk1: 0,
        accuracy: 0,
        unk2: 0,
        boost: 0,
        effective_against: 0,
        hit_effect: 0,
        effect_rate: 0,
        effect_value: 0,
        unk3: 0,
        unk4: 0,
        move_type: 0,
        freq: 0,
    }
}

#[test]
fn skip_rules() {
    let mut p = Encounters { cardmon: false, bosses: true, keep_zanbamon: true, keep_galacticmon: false, ..Encounters::default() };
    assert!(skip(&enc(CARDMON_MIN as u32, 1, 16), &p));
    assert!(!skip(&enc(7, 1, 16), &p));
    assert!(skip(&enc(ZANBAMON_ID as u32, 1, 16), &p));
    assert!(!skip(&enc(ZANBAMON_ID as u32, 1, 20), &p));
    assert!(!skip(&enc(GALACTICMON_1ST_PHASE as u32, 1, 16), &p));
    p.strategy = TNTStrategy::Keep;
    assert!(skip(&enc(TRICERAMON_ID as u32, 6, 16), &p));
    p.strategy = TNTStrategy::Shuffle;
    assert!(!skip(&enc(TRICERAMON_ID as u32, 6, 16), &p));
}

#[test]
fn encounters_permuted_and_skipped_kept() {
    let original = vec![enc(1, 1, 16), enc(2, 2, 16), enc(3, 3, 16), enc(CARDMON_MIN as u32, 5, 16)];
    let mut modified = original.clone();
    let mut enemy_stats: Vec<EnemyStats> = vec![];
    let preset = Encounters { cardmon: false, strategy: TNTStrategy::Shuffle, ..Encounters::default() };
    let mut rng = Xoshiro256StarStar::seed_from_u64(17);
    shuffle_encounters(&preset, 4, &original, &mut modified, &mut enemy_stats, &mut rng);
    assert_eq!(modified[3], original[3]);
    let mut drawn = modified[0..3].to_vec();
    drawn.sort_by_key(|e| e.digimon_id);
    assert_eq!(drawn, original[0..3].to_vec());
}

#[test]
fn encounters_balance_ids() {
    // two Digimon over four places: each is met twice
    let original = vec![enc(1, 1, 16), enc(1, 2, 16), enc(1, 3, 16), enc(2, 4, 16)];
    let mut modified = original.clone();
    let mut enemy_stats: Vec<EnemyStats> = vec![];
    let preset = Encounters { strategy: TNTStrategy::Shuffle, ..Encounters::default() };
    let mut rng = Xoshiro256StarStar::seed_from_u64(18);
    shuffle_encounters(&preset, 2, &original, &mut modified, &mut enemy_stats, &mut rng);
    let ones = modified.iter().filter(|e| e.digimon_id == 1).count();
    assert_eq!(ones, 2);
    for e in &modified {
        assert!(original.contains(e));
    }
}

#[test]
fn encounters_spread_over_variants() {
    // Digimon 1 has two different encounters, Digimon 2 one met twice
    let original = vec![enc(1, 1, 16), enc(2, 3, 16), enc(1, 2, 16), enc(2, 3, 16)];
    let mut modified = original.clone();
    let mut enemy_stats: Vec<EnemyStats> = vec![];
    let preset = Encounters { strategy: TNTStrategy::Shuffle, ..Encounters::default() };
    let mut rng = Xoshiro256StarStar::seed_from_u64(23);
    shuffle_encounters(&preset, 3, &original, &mut modified, &mut enemy_stats, &mut rng);
    let mut got = modified.clone();
    got.sort_by_key(|e| (e.digimon_id, e.lv));
    assert_eq!(got, vec![enc(1, 1, 16), enc(1, 2, 16), enc(2, 3, 16), enc(2, 3, 16)]);
}

#[test]
fn encounters_swap_tnt_drop() {
    let original = vec![enc(TRICERAMON_ID as u32, 6, 16), enc(7, 2, 16)];
    let mut modified = original.clone();
    let mut enemy_stats = vec![stats(TRICERAMON_ID, 100, 5), stats(7, 200, 9)];
    let preset = Encounters { strategy: TNTStrategy::Swap, ..Encounters::default() };
    let mut rng = Xoshiro256StarStar::seed_from_u64(19);
    shuffle_encounters(&preset, 1, &original, &mut modified, &mut enemy_stats, &mut rng);
    if modified[0].digimon_id == 7 {
        assert_eq!((enemy_stats[0].droppable_item, enemy_stats[0].drop_rate), (200, 9));
        assert_eq!((enemy_stats[1].droppable_item, enemy_stats[1].drop_rate), (100, 5));
    } else {
        assert_eq!((enemy_stats[0].droppable_item, enemy_stats[0].drop_rate), (100, 5));
        assert_eq!((enemy_stats[1].droppable_item, enemy_stats[1].drop_rate), (200, 9));
    }
}

fn scaling_preset() -> Scaling {
    Scaling {
        enabled: true,
        scaling_offset: 0,
        base_stats: 100,
        base_res: 50,
        stat_modifier: 10,
        res_modifier: 5,
        natural_scaling: true,
    }
}

#[test]
fn scaling_targets_level_of_first_meeting() {
    let g = GALACTICMON_1ST_PHASE as u32;
    let original = vec![enc(g, 10, 16), enc(0x1d2, 10, 16), enc(g, 10, 16)];
    let mut encounters = vec![enc(g, 3, 16), enc(0x1d2, 4, 16), enc(g, 5, 16)];
    encounters[0].max_hp = 1;
    let mut enemy_stats = vec![stats(g as u16, 0, 0), stats(0x1d2, 0, 0)];
    let mut moves = vec![move_with_power(30)];
    let mut rng = Xoshiro256StarStar::seed_from_u64(20);
    scale(&scaling_preset(), &original, &mut encounters, &mut enemy_stats, &mut moves, &mut rng);
    for s in &enemy_stats {
        // stats: 10 * (100 + 10 * 10) / 50, resistances: 10 * (50 + 5 * 10) / 70
        assert_eq!((s.str, s.def, s.spt, s.wis, s.spd), (40, 40, 40, 40, 40));
        assert_eq!((s.fir_res, s.drk_res, s.mch_res), (14, 14, 14));
    }
    for (e, o) in encounters.iter().zip(original.iter()) {
        assert_eq!(e.multiplier, 16);
        assert_eq!(e.lv, o.lv);
        assert_eq!(e.max_hp, o.max_hp);
    }
    assert_eq!(moves[0].power, 30);
}

#[test]
fn scaling_equalizes_galacticmon_phases() {
    let g = GALACTICMON_1ST_PHASE as u32;
    let original = vec![enc(g, 10, 16), enc(0x1d2, 10, 16), enc(0x1d3, 20, 16), enc(0x1d3, 10, 16)];
    let mut encounters = original.clone();
    let mut enemy_stats = vec![stats(g as u16, 0, 0), stats(0x1d2, 0, 0), stats(0x1d3, 0, 0)];
    let mut moves = vec![move_with_power(30)];
    let mut rng = Xoshiro256StarStar::seed_from_u64(21);
    scale(&scaling_preset(), &original, &mut encounters, &mut enemy_stats, &mut moves, &mut rng);
    // phase three is met at level 20 against its first meeting at 10
    assert_eq!(encounters[2].multiplier, 24);
    assert_eq!(encounters[3].multiplier, 16);
    // phase one takes the multiplier of phase three, its stats shrink to match
    assert_eq!(encounters[0].multiplier, 24);
    assert_eq!(enemy_stats[0].str, 26);
    assert_eq!(enemy_stats[1].str, 40);
    assert_eq!(moves[0].power, 20);
}

#[test]
fn scaling_with_attack_move() {
    let g = GALACTICMON_1ST_PHASE as u32;
    let original = vec![enc(g, 10, 16), enc(0x1d2, 10, 16), enc(g, 10, 16)];
    let mut encounters = original.clone();
    let mut enemy_stats = vec![stats(g as u16, 0, 0), stats(0x1d2, 0, 0)];
    enemy_stats[1].attack = 1;
    let mut moves = vec![move_with_power(70)];
    let mut rng = Xoshiro256StarStar::seed_from_u64(22);
    scale(&scaling_preset(), &original, &mut encounters, &mut enemy_stats, &mut moves, &mut rng);
    // target power 40 + 10 * 10 = 140: multiplier ceil(16 * 140 / 70) = 32,
    // stats normalized to 200 * 70 / 140 = 100, so 10 * 100 / 50 = 20
    assert_eq!(encounters[1].multiplier, 32);
    assert_eq!(enemy_stats[1].str, 20);
    // resistances normalized to 100 * 70 / 140 = 50, so 10 * 50 / 70 = 7
    assert_eq!(enemy_stats[1].fir_res, 7);
}

fn record(stat_offsets: Vec<u8>, res_offsets: Vec<u8>) -> DigivolutionData {
    DigivolutionData {
        digimon_id: 1,
        str: 1,
        def: 2,
        spt: 3,
        wis: 4,
        spd: 5,
        chr: 6,
        fir_res: 7,
        wtr_res: 8,
        ice_res: 9,
        wnd_res: 10,
        thd_res: 11,
        mch_res: 12,
        drk_res: 13,
        attack: 0,
        tech: vec![1, 2],
        ori_tech: 0,
        dv_tech: 0,
        psn_rate: 0,
        par_rate: 0,
        cnf_rate: 0,
        slp_rate: 0,
        ko_rate: 0,
        tech_learn_level: vec![1, 2],
        tech_load_level: vec![1, 2],
        unk0: 0,
        dv: 0,
        unk1: 0,
        exp_modifier: 3,
        unk: 0,
        hp_modifier: 4,
        mp_modifier: 5,
        stat_offsets,
        res_offsets,
        unk_arr_1: vec![],
    }
}

#[test]
fn fixes_lower_offsets_by_one() {
    let mut records = vec![record(vec![1, 2, 5], vec![3, 4]), record(vec![], vec![1])];
    lower_offsets(&mut records);
    assert_eq!(records[0].stat_offsets, vec![0, 1, 4]);
    assert_eq!(records[0].res_offsets, vec![2, 3]);
    assert_eq!(records[1].res_offsets, vec![0]);
    assert_eq!(records[0].str, 1);
    assert_eq!(records[0].tech, vec![1, 2]);
}
