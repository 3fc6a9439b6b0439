use dmw3_randomizer::records::CONDITION_COUNT;
use dmw3_randomizer::structs::{
    DigivolutionCondition, DigivolutionConditions, DigivolutionData, EncounterData, EnemyStats,
    ItemShopData, MoveData, Moveset, Pointer, Shop,
};

#[test]
fn encounter_bytes_layout() {
    let e = EncounterData { digimon_id: 0x0102_0304, lv: 0x0506, max_hp: 7, max_mp: 8, multiplier: 16 };
    let mut out = vec![0xee];
    e.write(&mut out);
    assert_eq!(out, vec![0xee, 4, 3, 2, 1, 6, 5, 7, 0, 8, 0, 16, 0]);
    assert_eq!(EncounterData::read(&out, 1), e);
}

#[test]
fn pointer_and_shop_roundtrip() {
    let sh = Shop { item_count: 9, items: Pointer { value: 0x8001_2345 } };
    let mut out = Vec::new();
    sh.write(&mut out);
    assert_eq!(out, vec![9, 0, 0, 0, 0x45, 0x23, 0x01, 0x80]);
    let back = Shop::read(&out, 0);
    assert_eq!(back.item_count, 9);
    assert_eq!(back.items, Pointer { value: 0x8001_2345 });
    assert_eq!(Pointer::read(&out, 4).value, 0x8001_2345);
}

#[test]
fn item_shop_data_roundtrip() {
    let d = ItemShopData { unk_ptr: Pointer { value: 0xdead_beef }, buy_price: 300, sell_price: 150, unk: 42 };
    let mut out = Vec::new();
    d.write(&mut out);
    assert_eq!(out.len(), 12);
    assert_eq!(&out[4..8], &[44, 1, 150, 0]);
    let back = ItemShopData::read(&out, 0);
    assert_eq!((back.unk_ptr.value, back.buy_price, back.sell_price, back.unk), (0xdead_beef, 300, 150, 42));
}

fn moveset(a: u8) -> Moveset {
    Moveset { action: a, comparator: a + 1, value: 0x0100 + a as u16 }
}

#[test]
fn enemy_stats_roundtrip_with_negative_values() {
    let e = EnemyStats {
        digimon_id: 0x1ba,
        droppable_item: 5,
        drop_rate: 6,
        some_index: 7,
        attack: 8,
        move_1: 9,
        move_2: 10,
        str: -1,
        def: 2,
        spt: -300,
        wis: 4,
        spd: 5,
        fir_res: -6,
        wtr_res: 7,
        ice_res: 8,
        wnd_res: 9,
        thd_res: 10,
        mch_res: 11,
        drk_res: i16::MIN,
        psn_rate: 13,
        par_rate: 14,
        cnf_rate: 15,
        slp_rate: 16,
        ko_rate: 17,
        digimon_type: 18,
        moveset_1: moveset(1),
        moveset_2: moveset(2),
        moveset_3: moveset(3),
        moveset_4: moveset(4),
        counter_moveset: moveset(5),
    };
    let mut out = Vec::new();
    e.write(&mut out);
    assert_eq!(out.len(), 70);
    assert_eq!(&out[0..2], &[0xba, 0x01]);
    assert_eq!(&out[14..16], &[0xff, 0xff]);
    assert_eq!(&out[66..70], &[5, 6, 5, 1]);
    let b = EnemyStats::read(&out, 0);
    assert_eq!((b.digimon_id, b.str, b.spt, b.fir_res, b.drk_res), (0x1ba, -1, -300, -6, i16::MIN));
    assert_eq!((b.ko_rate, b.digimon_type), (17, 18));
    assert_eq!((b.counter_moveset.action, b.counter_moveset.comparator, b.counter_moveset.value), (5, 6, 0x105));
}

#[test]
fn move_data_roundtrip() {
    let m = MoveData {
        mp: 12,
        power: 0x0203,
        unk1: 4,
        accuracy: 95,
        unk2: 1,
        boost: 2,
        effective_against: 3,
        hit_effect: 9,
        effect_rate: 10,
        effect_value: 11,
        unk3: 12,
        unk4: 0x0d0e,
        move_type: 15,
        freq: 3,
    };
    let mut out = Vec::new();
    m.write(&mut out);
    assert_eq!(out, vec![12, 0, 3, 2, 4, 0, 95, 1, 2, 3, 9, 10, 11, 12, 0x0e, 0x0d, 15, 3]);
    let b = MoveData::read(&out, 0);
    assert_eq!((b.power, b.hit_effect, b.freq, b.unk4), (0x0203, 9, 3, 0x0d0e));
}

#[test]
fn digivolution_data_roundtrip() {
    let d = DigivolutionData {
        digimon_id: 1,
        str: 2,
        def: 3,
        spt: 4,
        wis: 5,
        spd: 6,
        chr: 7,
        fir_res: 8,
        wtr_res: 9,
        ice_res: 10,
        wnd_res: 11,
        thd_res: 12,
        mch_res: 13,
        drk_res: 14,
        attack: 15,
        tech: vec![16, 17, 18, 19, 0x1234],
        ori_tech: 21,
        dv_tech: 22,
        psn_rate: 23,
        par_rate: 24,
        cnf_rate: 25,
        slp_rate: 26,
        ko_rate: 27,
        tech_learn_level: vec![28, 29, 30, 31, 32],
        tech_load_level: vec![33, 34, 35, 36, 37],
        unk0: 38,
        dv: 39,
        unk1: 40,
        exp_modifier: 41,
        unk: 0x2a2b,
        hp_modifier: 43,
        mp_modifier: 44,
        stat_offsets: vec![1, 2, 3, 4, 5, 1],
        res_offsets: vec![5, 4, 3, 2, 1, 2, 3],
        unk_arr_1: vec![0, 1, 2, 3, 4, 5, 6, 7],
    };
    let mut out = Vec::new();
    d.write(&mut out);
    assert_eq!(out.len(), 88);
    assert_eq!(&out[38..40], &[0x34, 0x12]);
    assert_eq!(&out[63..65], &[0x2b, 0x2a]);
    let b = DigivolutionData::read(&out, 0);
    assert_eq!(b.tech, d.tech);
    assert_eq!(b.tech_learn_level, d.tech_learn_level);
    assert_eq!(b.tech_load_level, d.tech_load_level);
    assert_eq!(b.stat_offsets, d.stat_offsets);
    assert_eq!(b.res_offsets, d.res_offsets);
    assert_eq!(b.unk_arr_1, d.unk_arr_1);
    assert_eq!((b.digimon_id, b.attack, b.ori_tech, b.dv_tech, b.ko_rate), (1, 15, 21, 22, 27));
    assert_eq!((b.unk0, b.dv, b.unk1, b.exp_modifier, b.unk, b.hp_modifier, b.mp_modifier), (38, 39, 40, 41, 0x2a2b, 43, 44));
}

#[test]
fn digivolution_conditions_roundtrip() {
    let conditions: Vec<DigivolutionCondition> = (0..CONDITION_COUNT as u16)
        .map(|i| DigivolutionCondition {
            index: 1000 + i as u32,
            dv_index_1: i,
            rq_level_1: 2 * i,
            dv_index_2: 3 * i,
            rq_level_2: 4,
            rq_type: 5,
            rq: 6,
        })
        .collect();
    let cs = DigivolutionConditions { conditions };
    let mut out = Vec::new();
    cs.write(&mut out);
    assert_eq!(out.len(), 16 * CONDITION_COUNT);
    let back = DigivolutionConditions::read(&out, 0);
    assert_eq!(back.conditions.len(), CONDITION_COUNT);
    for (a, b) in back.conditions.iter().zip(cs.conditions.iter()) {
        assert_eq!((a.index, a.dv_index_1, a.rq_level_1, a.dv_index_2), (b.index, b.dv_index_1, b.rq_level_1, b.dv_index_2));
        assert_eq!((a.rq_level_2, a.rq_type, a.rq), (4, 5, 6));
    }
}
