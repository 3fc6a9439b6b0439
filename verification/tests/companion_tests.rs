use dmw3_randomizer::auctions::{auction_items_with_draws, Auction, AuctionItem};
use dmw3_randomizer::card_game::{boosters_with_draws, shop_items_with_draws, CardPricing};
use dmw3_randomizer::clock::{now_timestamp, timestamp_of};
use dmw3_randomizer::consts::{DIGIVOLUTION_COUNT, ROOKIE_COUNT};
use dmw3_randomizer::maps::{backgrounds_with_draws, music_with_draws, MapColor, MapObject, MusicPool, MusicSet};
use dmw3_randomizer::util::uniform_random_vector_with_draws;
use dmw3_randomizer::item_boxes::{received_texts, received_texts_ready, TextGroup};
use dmw3_randomizer::entities::{Entity, EntityLogic, MapEntities, ScriptStep};
use dmw3_randomizer::encounters::patch_with_draws;
use dmw3_randomizer::json::{Encounters, Parties, ShopItems, TNTStrategy};
use dmw3_randomizer::parties::{
    base_stat_list, distribute_stats_with_weights, learned_moves_with_draws, signatures_with_draws, PartiesError,
};
use dmw3_randomizer::shops::{randomize_existing_with_draws, randomize_limited_with_draws, ShopsError};
use dmw3_randomizer::structs::{DigivolutionData, ItemShopData, Pointer, Shop};

fn record(id: u16, tech: Vec<u16>) -> DigivolutionData {
    DigivolutionData {
        digimon_id: id,
        str: 1,
        def: 2,
        spt: 3,
        wis: 4,
        spd: 5,
        chr: 6,
        fir_res: 7,
        wtr_res: 8,
        ice_res: 9,
        wnd_res: 10,
        thd_res: 11,
        mch_res: 12,
        drk_res: 13,
        attack: 0,
        tech,
        ori_tech: 0,
        dv_tech: 0,
        psn_rate: 0,
        par_rate: 0,
        cnf_rate: 0,
        slp_rate: 0,
        ko_rate: 0,
        tech_learn_level: vec![],
        tech_load_level: vec![],
        unk0: 0,
        dv: 0,
        unk1: 0,
        exp_modifier: 3,
        unk: 0,
        hp_modifier: 4,
        mp_modifier: 5,
        stat_offsets: vec![1, 1, 1, 1, 1],
        res_offsets: vec![1, 1, 1, 1, 1, 1, 1],
        unk_arr_1: vec![],
    }
}

fn stat_values(d: &DigivolutionData) -> Vec<u16> {
    vec![d.str, d.def, d.spt, d.wis, d.spd]
}

#[test]
fn stats_shared_by_each_rookies_weights() {
    let mut rookies = vec![record(1, vec![]), record(2, vec![])];
    let weights = vec![vec![1, 1, 0, 0, 0], vec![0, 0, 0, 0, 2]];
    let r = distribute_stats_with_weights(&mut rookies, &base_stat_list(), 100, 10, &weights);
    assert_eq!(r, Ok(()));
    assert_eq!(stat_values(&rookies[0]), vec![35, 35, 10, 10, 10]);
    assert_eq!(stat_values(&rookies[1]), vec![10, 10, 10, 10, 60]);
    assert_eq!(rookies[0].chr, 6);
}

#[test]
fn stats_stop_at_first_zero_weights() {
    let mut rookies = vec![record(1, vec![]), record(2, vec![]), record(3, vec![])];
    let weights = vec![vec![1, 1, 0, 0, 0], vec![0, 0, 0, 0, 0], vec![1, 1, 1, 1, 1]];
    let r = distribute_stats_with_weights(&mut rookies, &base_stat_list(), 100, 10, &weights);
    assert_eq!(r, Err(PartiesError::ZeroWeights));
    assert_eq!(stat_values(&rookies[0]), vec![35, 35, 10, 10, 10]);
    assert_eq!(stat_values(&rookies[1]), vec![1, 2, 3, 4, 5]);
    assert_eq!(stat_values(&rookies[2]), vec![1, 2, 3, 4, 5]);
}

#[test]
fn learned_moves_take_drawn_techs() {
    // learnable techs: 10, 11, 12, 13; each rookie draws from all of them
    let originals = vec![record(1, vec![10, 11, 0]), record(2, vec![12, 0, 13])];
    let mut modified = vec![record(1, vec![5, 0, 6]), record(2, vec![0, 0, 9])];
    learned_moves_with_draws(&originals, &mut modified, &vec![vec![1, 1], vec![6]]);
    assert_eq!(modified[0].tech, vec![11, 0, 12]);
    assert_eq!(modified[1].tech, vec![0, 0, 12]);
}

fn shop(count: u32, value: u32) -> Shop {
    Shop { item_count: count, items: Pointer { value } }
}

#[test]
fn limited_shops_take_drawn_items() {
    let mut shops = vec![shop(5, 0x8001_0000), shop(1, 0x8001_0040)];
    let mut items: Vec<u16> = vec![7; 7];
    let r = randomize_limited_with_draws(2, &mut shops, &mut items, &vec![0, 0, 5, 4], &vec![10, 20, 30]);
    assert_eq!(r, Ok(()));
    assert_eq!(items, vec![10, 20, 0, 30, 10, 0, 7]);
    let got: Vec<(u32, u32)> = shops.iter().map(|s| (s.item_count, s.items.value)).collect();
    assert_eq!(got, vec![(2, 0x8001_0000), (2, 0x8001_0006)]);
}

#[test]
fn limited_shops_none_to_fill() {
    let mut shops: Vec<Shop> = vec![];
    let mut items: Vec<u16> = vec![1, 2];
    let r = randomize_limited_with_draws(2, &mut shops, &mut items, &vec![], &vec![10, 20]);
    assert_eq!(r, Err(ShopsError::EmptyShops));
    assert_eq!(items, vec![1, 2]);
}

#[test]
fn existing_items_take_drawn_items() {
    // the pool starts afresh after the blank; the blank's draw is not used
    let mut items: Vec<u16> = vec![5, 6, 0, 7];
    randomize_existing_with_draws(&mut items, &vec![1, 1, 9, 2], &vec![10, 20, 30]);
    assert_eq!(items, vec![20, 30, 0, 30]);
}

fn item(buy: u16, sell: u16) -> ItemShopData {
    ItemShopData { unk_ptr: Pointer { value: 0 }, buy_price: buy, sell_price: sell, unk: 0 }
}

#[test]
fn auction_items_take_drawn_items() {
    let preset = Auction {
        enabled: true,
        auction_items: true,
        auction_items_pool: ShopItems::Sellable,
        auction_values: false,
        auction_values_min: 0,
        auction_values_max: 0,
    };
    // sellable items: 1, 3, 4
    let data = vec![item(1, 1), item(0, 2), item(0, 0), item(0, 3), item(0, 4)];
    let mut auctions = vec![AuctionItem { item: 0 }; 3];
    auction_items_with_draws(&preset, &mut auctions, &data, &vec![1, 1, 0]);
    let got: Vec<u16> = auctions.iter().map(|a| a.item).collect();
    assert_eq!(got, vec![3, 4, 1]);
}

#[test]
fn boosters_rename_in_turn() {
    let mut original: Vec<u32> = vec![1; 96];
    original[0] = 2;
    let mut modified = original.clone();
    // slot 0 holds cards 2 and 1: 2 becomes card 1, then every 1 becomes card 2
    let mut draws: Vec<Vec<u64>> = vec![vec![0, 0]];
    for _ in 1..6 {
        draws.push(vec![4]);
    }
    boosters_with_draws(1, &original, &mut modified, &draws);
    assert!(modified[..16].iter().all(|c| *c == 2));
    assert!(modified[16..].iter().all(|c| *c == 5));
}

#[test]
fn card_shops_from_given_shuffles() {
    let mut pricing: Vec<CardPricing> = (0..6).map(|_| CardPricing { card_id: 0, pricing: 3 }).collect();
    let mut items: Vec<u16> = vec![0; 8];
    // the card ids 1..=314 with 1 and 6 swapped; the stock with its first two swapped
    shop_items_with_draws(&mut pricing, 1, &mut items, &vec![5], &vec![vec![1]]);
    let ids: Vec<i16> = pricing.iter().map(|c| c.card_id).collect();
    assert_eq!(ids, vec![6, 2, 3, 4, 5, 1]);
    assert_eq!(&items[..6], &[2, 6, 3, 4, 5, 1]);
}

#[test]
fn clock_reads_after_epoch() {
    assert!(now_timestamp() > 1_500_000_000);
}

#[test]
fn timestamps_before_the_epoch_wrap() {
    assert_eq!(timestamp_of(Ok((1_700_000_000, 5))), 1_700_000_000);
    // 2.5 seconds before the epoch is the timestamp -3
    assert_eq!(timestamp_of(Err((2, 500_000_000))), (-3i64) as u64);
    assert_eq!(timestamp_of(Err((2, 0))), (-2i64) as u64);
    assert_eq!(timestamp_of(Err((0, 0))), 0);
}

#[test]
fn party_preset_checks() {
    let mut p = Parties::default();
    assert!(p.check_distributions());
    assert!(p.check_ranges());
    p.min_starting_stat = p.total_starting_stats / 5 + 1;
    assert!(!p.check_distributions());
    p = Parties::default();
    p.min_starting_hp = 10;
    p.max_starting_hp = 9;
    assert!(!p.check_ranges());
}

fn logic(text_index: u32) -> EntityLogic {
    EntityLogic { script: Pointer { value: 0 }, conditions: Pointer { value: 0 }, text_index }
}

fn talk_maps() -> Vec<MapEntities> {
    vec![MapEntities {
        entities: vec![Entity { sprite: 1, logic: Pointer { value: 0 } }],
        entity_logics: vec![logic(1), logic(2)],
        scripts_conditions: vec![ScriptStep { bitfield: 0, last_step: true }],
    }]
}

fn talk_group() -> TextGroup {
    let lang = |c: u8| vec![vec![c, 0, 0, 0], vec![c + 1, 0, 0, 0], vec![c + 2, 0, 0, 0]];
    TextGroup { files: vec![lang(b'a'), lang(b'x')], mapped_items: vec![], overwritten: vec![] }
}

#[test]
fn received_texts_ready_checks_inputs() {
    let maps = talk_maps();
    let groups = vec![talk_group()];
    let names = vec![vec![vec![], vec![b'A', 0]], vec![vec![], vec![b'C']]];
    let frames = vec![(vec![b'<'], vec![b'>']), (vec![b'('], vec![b')'])];
    let placed = vec![(0, 0, 1), (0, 1, 1)];
    assert!(received_texts_ready(&maps, &groups, &vec![0], &placed, &names, &frames));
    // no text group for the map
    assert!(!received_texts_ready(&maps, &groups, &vec![1], &placed, &names, &frames));
    // a name of zeros only
    let zero_names = vec![vec![vec![], vec![0]], vec![vec![], vec![b'C']]];
    assert!(!received_texts_ready(&maps, &groups, &vec![0], &placed, &zero_names, &frames));
    // one language fewer in the group
    let mut short = talk_group();
    short.files.pop();
    assert!(!received_texts_ready(&maps, &vec![short], &vec![0], &placed, &names, &frames));
    // a logic whose text lies past the group's texts
    let mut far = talk_maps();
    far[0].entity_logics[1].text_index = 3;
    assert!(!received_texts_ready(&far, &groups, &vec![0], &placed, &names, &frames));
    // where the check passes, the call goes through
    let mut maps = maps;
    let mut groups = groups;
    received_texts(&mut maps, &mut groups, &vec![0], &placed, &names, &frames);
    assert_eq!(groups[0].files[0][1], vec![b'<', b'A', b'>', 0]);
    assert_eq!(maps[0].entity_logics[1].text_index, 1);
}

#[test]
fn uniform_vector_from_given_draws() {
    // copies [2, 1, 3] and [1, 2, 3], cut to [2, 1, 3, 1], then 0 and 3 traded
    let v = uniform_random_vector_with_draws(&vec![1u16, 2, 3], 4, &vec![vec![1, 0], vec![]], &vec![3]);
    assert_eq!(v, vec![1, 1, 3, 2]);
}

#[test]
fn signatures_from_given_shuffles() {
    let rookies: Vec<DigivolutionData> = (0..ROOKIE_COUNT as u16)
        .map(|i| {
            let mut d = record(i, vec![]);
            d.ori_tech = 100 + i;
            d
        })
        .collect();
    let forms: Vec<DigivolutionData> = (0..DIGIVOLUTION_COUNT as u16)
        .map(|i| {
            let mut d = record(i, vec![]);
            d.ori_tech = 200 + i;
            d
        })
        .collect();
    let mut rookie_modified = rookies.clone();
    let mut form_modified = forms.clone();
    // the first and the last rookie techs trade places; the forms keep theirs
    signatures_with_draws(&rookies, &mut rookie_modified, &forms, &mut form_modified, &vec![7], &vec![]);
    assert_eq!(rookie_modified[0].ori_tech, 107);
    assert_eq!(rookie_modified[7].ori_tech, 100);
    assert_eq!(rookie_modified[3].ori_tech, 103);
    for i in 0..DIGIVOLUTION_COUNT {
        assert_eq!(form_modified[i].ori_tech, 200 + i as u16);
    }
}

fn bg_map(bg: u16, music: Vec<MusicSet>) -> MapObject {
    MapObject {
        background_original: bg,
        background_modified: bg,
        color: Some(MapColor { red: 1, green: 2, blue: 3 }),
        music_original: music.clone(),
        music_modified: music,
        stage_encounters: vec![],
    }
}

#[test]
fn backgrounds_from_given_draws() {
    // the copy [9, 4] is shuffled to [4, 9] and handed out from its end
    let mut maps = vec![bg_map(4, vec![]), bg_map(9, vec![])];
    backgrounds_with_draws(&mut maps, &vec![vec![1]], &vec![1]);
    assert_eq!(maps[0].background_modified, 9);
    assert_eq!(maps[1].background_modified, 4);
    assert_eq!(maps[0].background_original, 4);
}

#[test]
fn music_from_given_draws() {
    let set = |t: u16, f: u16| MusicSet { sep_track: t, sep_file: f };
    let mut maps = vec![bg_map(4, vec![set(3, 10)]), bg_map(9, vec![set(1, 10)])];
    // the pool [(1, 10), (3, 10)] shuffled to [(3, 10), (1, 10)], handed out from its end
    assert_eq!(music_with_draws(&mut maps, MusicPool::Overworld, &vec![vec![1]], &vec![]), Ok(()));
    assert_eq!(maps[0].music_modified, vec![set(1, 10)]);
    assert_eq!(maps[1].music_modified, vec![set(3, 10)]);
}

fn enc(digimon_id: u32, lv: u16) -> dmw3_randomizer::structs::EncounterData {
    dmw3_randomizer::structs::EncounterData { digimon_id, lv, max_hp: 100 + lv, max_mp: 10, multiplier: 16 }
}

#[test]
fn encounters_from_given_draws() {
    let original = vec![enc(1, 1), enc(2, 3), enc(1, 2), enc(2, 3)];
    let mut modified = original.clone();
    let mut enemy_stats = vec![];
    let preset = Encounters { strategy: TNTStrategy::Shuffle, ..Encounters::default() };
    // identifiers: copies [2, 1] and [1, 2], handed out from the end: 2, 1, 1, 2
    // Digimon 1's encounters shuffled to [lv 2, lv 1], Digimon 2's [lv 3, lv 3]
    patch_with_draws(
        &preset,
        &original,
        &mut modified,
        &mut enemy_stats,
        &vec![vec![1], vec![0]],
        &vec![],
        &vec![vec![vec![1]], vec![vec![], vec![]]],
        &vec![vec![], vec![]],
    );
    assert_eq!(modified, vec![enc(2, 3), enc(1, 1), enc(1, 2), enc(2, 3)]);
}
