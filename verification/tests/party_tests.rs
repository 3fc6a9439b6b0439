use dmw3_randomizer::consts::{DIGIVOLUTION_COUNT, ROOKIE_COUNT};
use dmw3_randomizer::parties::{
    base_stat_list, distribute, distribute_stats, distribute_with_weights, PartiesError, learned_moves, random_affinities, random_affinities_with_draws, random_modifiers,
    random_modifiers_with_draws,
    random_parties, resistance_list, signatures, Affinities, Modifier, Stat,
};
use dmw3_randomizer::structs::DigivolutionData;
use rand_xoshiro::rand_core::SeedableRng;
use rand_xoshiro::Xoshiro256StarStar;

fn record(id: u16, tech: Vec<u16>, ori_tech: u16) -> DigivolutionData {
    DigivolutionData {
        digimon_id: id,
        str: 1,
        def: 2,
        spt: 3,
        wis: 4,
        spd: 5,
        chr: 6,
        fir_res: 7,
        wtr_res: 8,
        ice_res: 9,
        wnd_res: 10,
        thd_res: 11,
        mch_res: 12,
        drk_res: 13,
        attack: 0,
        tech,
        ori_tech,
        dv_tech: 0,
        psn_rate: 0,
        par_rate: 0,
        cnf_rate: 0,
        slp_rate: 0,
        ko_rate: 0,
        tech_learn_level: vec![],
        tech_load_level: vec![],
        unk0: 0,
        dv: 0,
        unk1: 0,
        exp_modifier: 3,
        unk: 0,
        hp_modifier: 4,
        mp_modifier: 5,
        stat_offsets: vec![1, 1, 1, 1, 1],
        res_offsets: vec![1, 1, 1, 1, 1, 1, 1],
        unk_arr_1: vec![],
    }
}

fn stat_values(d: &DigivolutionData) -> Vec<u16> {
    vec![d.str, d.def, d.spt, d.wis, d.spd]
}

fn res_values(d: &DigivolutionData) -> Vec<u16> {
    vec![d.fir_res, d.wtr_res, d.ice_res, d.wnd_res, d.thd_res, d.mch_res, d.drk_res]
}

#[test]
fn parties_are_three_distinct_rookies() {
    let mut parties: Vec<u8> = vec![0, 1, 2, 3, 4, 5, 6, 7, 0, 42, 43];
    let mut rng = Xoshiro256StarStar::seed_from_u64(1);
    random_parties(&mut parties, 5, &mut rng);
    assert_eq!(parties.len(), 11);
    for p in 0..3 {
        let party = &parties[p * 3..p * 3 + 3];
        for (i, x) in party.iter().enumerate() {
            assert!(*x < 8);
            for y in &party[i + 1..] {
                assert_ne!(x, y);
            }
        }
    }
    assert_eq!(&parties[9..], &[42, 43]);
}

#[test]
fn distribute_respects_minimum_and_total() {
    let mut rng = Xoshiro256StarStar::seed_from_u64(2);
    let values = distribute(100, 10, 5, &mut rng).unwrap();
    assert_eq!(values.len(), 5);
    let sum: u32 = values.iter().map(|v| *v as u32).sum();
    assert!(95 < sum && sum <= 100);
    assert!(values.iter().all(|v| *v >= 10));
}

#[test]
fn distribute_by_given_weights() {
    // 50 above the minimums, shared by weights 1, 1, 0, 0, 0
    let values = distribute_with_weights(100, 10, &vec![1, 1, 0, 0, 0]).unwrap();
    assert_eq!(values, vec![35, 35, 10, 10, 10]);
    // shares are rounded down: 20 * 1 / 3 and 20 * 2 / 3
    let values = distribute_with_weights(24, 2, &vec![1, 2]).unwrap();
    assert_eq!(values, vec![8, 15]);
}

#[test]
fn distribute_all_zero_weights_fails() {
    assert_eq!(distribute_with_weights(30, 5, &vec![0, 0, 0]), Err(PartiesError::ZeroWeights));
}

#[test]
fn distribute_exact_minimum() {
    let mut rng = Xoshiro256StarStar::seed_from_u64(3);
    let values = distribute(30, 10, 3, &mut rng).unwrap();
    assert_eq!(values, vec![10, 10, 10]);
}

#[test]
fn stat_set_changes_one_stat() {
    let mut d = record(1, vec![], 0);
    Stat::Wis.set(&mut d, 99);
    assert_eq!(stat_values(&d), vec![1, 2, 3, 99, 5]);
    Stat::DrkRes.set(&mut d, 77);
    assert_eq!(res_values(&d), vec![7, 8, 9, 10, 11, 12, 77]);
}

#[test]
fn stat_lists() {
    assert_eq!(base_stat_list(), vec![Stat::Str, Stat::Def, Stat::Spt, Stat::Wis, Stat::Spd]);
    assert_eq!(resistance_list().len(), 7);
    assert_eq!(resistance_list()[0], Stat::FirRes);
    assert_eq!(resistance_list()[6], Stat::DrkRes);
}

#[test]
fn distribute_stats_over_rookies() {
    let mut rookies = vec![record(1, vec![], 0), record(2, vec![], 0)];
    let mut rng = Xoshiro256StarStar::seed_from_u64(4);
    let r = distribute_stats(&mut rookies, &base_stat_list(), 200, 20, &mut rng);
    assert_eq!(r, Ok(()));
    for d in &rookies {
        let v = stat_values(d);
        let sum: u32 = v.iter().map(|x| *x as u32).sum();
        assert!(195 < sum && sum <= 200);
        assert!(v.iter().all(|x| *x >= 20));
        assert_eq!(res_values(d), vec![7, 8, 9, 10, 11, 12, 13]);
    }
}

#[test]
fn affinities_between_one_and_five() {
    let mut rookies = vec![record(1, vec![], 0), record(2, vec![], 0)];
    let mut rng = Xoshiro256StarStar::seed_from_u64(5);
    random_affinities(&mut rookies, Affinities::Resistances, &mut rng);
    for d in &rookies {
        assert_eq!(d.res_offsets.len(), 7);
        assert!(d.res_offsets.iter().all(|a| (1..=5).contains(a)));
        assert_eq!(d.stat_offsets, vec![1, 1, 1, 1, 1]);
    }
}

#[test]
fn modifiers_within_bounds() {
    let mut rookies = vec![record(1, vec![], 0), record(2, vec![], 0), record(3, vec![], 0)];
    let mut rng = Xoshiro256StarStar::seed_from_u64(6);
    random_modifiers(&mut rookies, Modifier::Hp, 8, 12, &mut rng);
    for d in &rookies {
        assert!(8 <= d.hp_modifier && d.hp_modifier <= 12);
        assert_eq!(d.exp_modifier, 3);
        assert_eq!(d.mp_modifier, 5);
    }
    random_modifiers(&mut rookies, Modifier::Exp, 7, 7, &mut rng);
    assert!(rookies.iter().all(|d| d.exp_modifier == 7));
}

#[test]
fn learned_moves_from_pool() {
    let originals = vec![record(1, vec![10, 11, 0], 0), record(2, vec![12, 0, 13], 0)];
    let mut modified = vec![record(1, vec![5, 0, 6], 0), record(2, vec![0, 0, 9], 0)];
    let mut rng = Xoshiro256StarStar::seed_from_u64(7);
    learned_moves(&originals, &mut modified, &mut rng);
    let pool = [10, 11, 12, 13];
    let t0 = &modified[0].tech;
    assert_eq!(t0[1], 0);
    assert!(pool.contains(&t0[0]) && pool.contains(&t0[2]));
    assert_ne!(t0[0], t0[2]);
    let t1 = &modified[1].tech;
    assert_eq!((t1[0], t1[1]), (0, 0));
    assert!(pool.contains(&t1[2]));
}

#[test]
fn signatures_dealt_distinct() {
    let rookie_original: Vec<DigivolutionData> =
        (0..ROOKIE_COUNT as u16).map(|i| record(i, vec![], 100 + i)).collect();
    let mut rookie_modified = rookie_original.clone();
    rookie_modified.push(record(99, vec![], 5));
    let dv_original: Vec<DigivolutionData> =
        (0..DIGIVOLUTION_COUNT as u16).map(|i| record(i, vec![], 200 + i)).collect();
    let mut dv_modified = dv_original.clone();
    let mut rng = Xoshiro256StarStar::seed_from_u64(8);
    signatures(&rookie_original, &mut rookie_modified, &dv_original, &mut dv_modified, 3, &mut rng);
    let mut rookie_sigs: Vec<u16> = rookie_modified[..ROOKIE_COUNT].iter().map(|d| d.ori_tech).collect();
    rookie_sigs.sort();
    assert_eq!(rookie_sigs, (100..100 + ROOKIE_COUNT as u16).collect::<Vec<u16>>());
    assert_eq!(rookie_modified[ROOKIE_COUNT].ori_tech, 5);
    let mut dv_sigs: Vec<u16> = dv_modified.iter().map(|d| d.ori_tech).collect();
    dv_sigs.sort();
    assert_eq!(dv_sigs, (200..200 + DIGIVOLUTION_COUNT as u16).collect::<Vec<u16>>());
}

#[test]
fn modifiers_given_draws() {
    let mut rookies = vec![record(1, vec![], 0), record(2, vec![], 0)];
    random_modifiers_with_draws(&mut rookies, Modifier::Hp, 10, 14, &vec![7, 20]);
    assert_eq!(rookies[0].hp_modifier, 12);
    assert_eq!(rookies[1].hp_modifier, 10);
    assert_eq!(rookies[0].exp_modifier, 3);
}

#[test]
fn affinities_given_draws() {
    let mut rookies = vec![record(1, vec![], 0)];
    let n = rookies[0].res_offsets.len();
    let draws: Vec<u64> = (0..n as u64).map(|x| x * 3).collect();
    random_affinities_with_draws(&mut rookies, Affinities::Resistances, &vec![draws.clone()]);
    for (k, d) in draws.iter().enumerate() {
        assert_eq!(rookies[0].res_offsets[k] as u64, 1 + d % 5);
    }
}
