use dmw3_randomizer::archipelago::{
    generate_archipelago_yaml, item_boxes_by_map, shop_lists, Accessibility, ArchipelagoError, BoxMap,
    ProgressionBalancing,
};
use dmw3_randomizer::entities::{item_box_items, Entity, EntityLogic, MapEntities, ScriptStep};
use dmw3_randomizer::auctions::{
    auction_items, auction_prices, auction_values, full_prices, patch as auction_patch, Auction,
    AuctionItem, AUCTION_COUNT, BITS_CHECK_COUNT, DEFAULT_AUCTION_PRICES,
};
use dmw3_randomizer::card_game::{
    boosters, patch as card_patch, pricing, shop_items, CardGameData, CardPricing, CARD_COUNT,
};
use dmw3_randomizer::cli::Arguments;
use dmw3_randomizer::json::{
    default_shuffles, CardGame, Encounters, GroupStrategy, Maps, Parties, Randomizer, Scaling,
    ShopItems, TNTStrategy,
};
use dmw3_randomizer::structs::{ItemShopData, Pointer, Shop};
use dmw3_randomizer::util::{shuffle, shuffle_with_draws, uniform_random_vector};
use rand_xoshiro::rand_core::SeedableRng;
use rand_xoshiro::Xoshiro256StarStar;

fn rng(seed: u64) -> Xoshiro256StarStar {
    Xoshiro256StarStar::seed_from_u64(seed)
}

#[test]
fn shuffle_is_permutation() {
    let mut v: Vec<u32> = (0..20).collect();
    shuffle(&mut v, 5, &mut rng(1));
    assert_ne!(v, (0..20).collect::<Vec<u32>>());
    let mut sorted = v.clone();
    sorted.sort();
    assert_eq!(sorted, (0..20).collect::<Vec<u32>>());
}

#[test]
fn shuffle_can_move_the_last_element() {
    let moved = (0..50u64).any(|seed| {
        let mut v: Vec<u32> = (0..6).collect();
        shuffle(&mut v, 1, &mut rng(seed));
        v[5] != 5
    });
    assert!(moved);
    let swapped = (0..50u64).any(|seed| {
        let mut v: Vec<u32> = vec![3, 1];
        shuffle(&mut v, 1, &mut rng(seed));
        v == vec![1, 3]
    });
    assert!(swapped);
}

#[test]
fn shuffle_with_given_draws() {
    // one pass over positions 0, 1, 2: (0,3), (1,1), (2,3)
    let mut v = vec![1, 2, 3, 4];
    shuffle_with_draws(&mut v, &vec![3, 0, 1]);
    assert_eq!(v, vec![4, 2, 1, 3]);
    let mut w = vec![1, 2];
    shuffle_with_draws(&mut w, &vec![1]);
    assert_eq!(w, vec![2, 1]);
}

#[test]
fn shuffle_single_or_zero_rounds_unchanged() {
    let mut v: Vec<u32> = vec![3];
    shuffle(&mut v, 9, &mut rng(2));
    assert_eq!(v, vec![3]);
    let mut w: Vec<u32> = vec![5, 4, 3, 2, 1];
    shuffle(&mut w, 0, &mut rng(2));
    assert_eq!(w, vec![5, 4, 3, 2, 1]);
}

#[test]
fn uniform_vector_balanced() {
    let alphabet: Vec<u16> = vec![1, 2, 3];
    let v = uniform_random_vector(&alphabet, 9, 4, &mut rng(3));
    assert_eq!(v.len(), 9);
    for x in &alphabet {
        assert_eq!(v.iter().filter(|y| *y == x).count(), 3);
    }
}

#[test]
fn uniform_vector_uneven_length() {
    let alphabet: Vec<u16> = vec![1, 2, 3];
    let v = uniform_random_vector(&alphabet, 7, 4, &mut rng(4));
    assert_eq!(v.len(), 7);
    for x in &alphabet {
        let n = v.iter().filter(|y| *y == x).count();
        assert!((2..=3).contains(&n));
    }
}

#[test]
fn card_prices_in_bounds() {
    let mut cards: Vec<CardPricing> = (0..10).map(|i| CardPricing { card_id: i, pricing: 1 }).collect();
    let preset = CardGame { min_card_buy_price: -5, max_card_buy_price: 5, ..CardGame::default() };
    pricing(&preset, &mut cards, &mut rng(5));
    for (i, c) in cards.iter().enumerate() {
        assert_eq!(c.card_id, i as i16);
        assert!(-5 <= c.pricing && c.pricing <= 5);
    }
}

#[test]
fn card_shops_stock_six_distinct_priced_cards() {
    let mut cards: Vec<CardPricing> = (0..8).map(|i| CardPricing { card_id: 0, pricing: i }).collect();
    let mut items: Vec<u16> = vec![77; 16];
    shop_items(3, &mut cards, 2, &mut items, &mut rng(6));
    let ids: Vec<i16> = cards.iter().map(|c| c.card_id).collect();
    for (i, c) in cards.iter().enumerate() {
        assert!(1 <= c.card_id && c.card_id <= CARD_COUNT as i16);
        assert_eq!(c.pricing, i as i16);
        for d in &cards[i + 1..] {
            assert_ne!(c.card_id, d.card_id);
        }
    }
    for s in 0..2 {
        let shop = &items[8 * s..8 * s + 6];
        for (k, x) in shop.iter().enumerate() {
            assert!(ids.contains(&(*x as i16)));
            for y in &shop[k + 1..] {
                assert_ne!(x, y);
            }
        }
        assert_eq!((items[8 * s + 6], items[8 * s + 7]), (77, 77));
    }
}

#[test]
fn boosters_reroll_cards() {
    let original: Vec<u32> = (0..96).map(|p| 1 + (p % 16) / 4).collect();
    let mut modified = original.clone();
    modified.push(1234);
    boosters(1, &original, &mut modified, &mut rng(7));
    assert_eq!(modified[96], 1234);
    for j in 0..6 {
        let slot = &modified[16 * j..16 * j + 16];
        for c in slot {
            assert!(1 <= *c && *c <= CARD_COUNT as u32);
        }
        // cards that were equal stay equal, different ones stay different
        for a in 0..16 {
            for b in 0..16 {
                let same_before = original[16 * j + a] == original[16 * j + b];
                assert_eq!(slot[a] == slot[b], same_before);
            }
        }
    }
}

#[test]
fn card_game_patch_nothing_asked() {
    let preset = CardGame { shop_items: false, buy_price: false, boosters: false, ..CardGame::default() };
    let mut data = CardGameData {
        card_pricing: vec![CardPricing { card_id: 4, pricing: 9 }],
        card_shop_count: 0,
        card_shop_items: vec![1, 2],
        booster_count: 0,
        booster_items_original: vec![],
        booster_items: vec![3],
    };
    card_patch(&preset, 1, &mut data, &mut rng(8));
    assert_eq!((data.card_pricing[0].card_id, data.card_pricing[0].pricing), (4, 9));
    assert_eq!(data.card_shop_items, vec![1, 2]);
    assert_eq!(data.booster_items, vec![3]);
}

#[test]
fn auction_full_prices_follow_checks() {
    let checks: Vec<u32> = (1..=10).map(|c| c * 1000).collect();
    let prices = full_prices(&checks);
    assert_eq!(prices.len(), AUCTION_COUNT);
    // auction 0 follows the first check: half of it, up an eighth per bid
    assert_eq!(prices[0], [500, 625, 750, 875, 1000]);
    assert_eq!(prices[1], [500, 625, 750, 875, 1000]);
    assert_eq!(prices[2], [1000, 1250, 1500, 1750, 2000]);
    // the auctions after the twelfth follow one check each
    assert_eq!(prices[12], [3500, 4375, 5250, 6125, 7000]);
    assert_eq!(prices[15], [5000, 6250, 7500, 8750, 10000]);
}

#[test]
fn auction_prices_default_when_values_kept() {
    let preset = Auction {
        enabled: true,
        auction_items: false,
        auction_items_pool: ShopItems::Buyable,
        auction_values: false,
        auction_values_min: 0,
        auction_values_max: 0,
    };
    let prices = auction_prices(&preset, &vec![]);
    for i in 0..AUCTION_COUNT {
        assert_eq!(prices[i], DEFAULT_AUCTION_PRICES[i]);
    }
}

#[test]
fn auction_values_in_bounds() {
    let preset = Auction {
        enabled: true,
        auction_items: false,
        auction_items_pool: ShopItems::Buyable,
        auction_values: true,
        auction_values_min: 100,
        auction_values_max: 200,
    };
    let mut checks: Vec<u32> = vec![0; BITS_CHECK_COUNT + 1];
    let mut subtracts: Vec<u32> = vec![0; BITS_CHECK_COUNT + 1];
    checks[BITS_CHECK_COUNT] = 5;
    auction_values(&preset, &mut checks, &mut subtracts, &mut rng(9));
    for i in 0..BITS_CHECK_COUNT {
        assert!(100 <= checks[i] && checks[i] <= 200);
        assert_eq!(subtracts[i], checks[i]);
    }
    assert_eq!(checks[BITS_CHECK_COUNT], 5);
    assert_eq!(subtracts[BITS_CHECK_COUNT], 0);
}

fn item(buy: u16, sell: u16) -> ItemShopData {
    ItemShopData { unk_ptr: Pointer { value: 0 }, buy_price: buy, sell_price: sell, unk: 0 }
}

#[test]
fn auction_items_distinct_and_shoppable() {
    let preset = Auction {
        enabled: true,
        auction_items: true,
        auction_items_pool: ShopItems::Sellable,
        auction_values: false,
        auction_values_min: 0,
        auction_values_max: 0,
    };
    let data = vec![item(1, 1), item(0, 2), item(0, 0), item(0, 3), item(0, 4)];
    let mut auctions = vec![AuctionItem { item: 0 }; 3];
    auction_items(&preset, &mut auctions, &data, &mut rng(10));
    let mut got: Vec<u16> = auctions.iter().map(|a| a.item).collect();
    got.sort();
    assert_eq!(got, vec![1, 3, 4]);
}

#[test]
fn auction_patch_nothing_asked() {
    let preset = Auction {
        enabled: true,
        auction_items: false,
        auction_items_pool: ShopItems::Sellable,
        auction_values: false,
        auction_values_min: 0,
        auction_values_max: 0,
    };
    let mut auctions = vec![AuctionItem { item: 8 }];
    let mut checks: Vec<u32> = vec![1, 2];
    let mut subtracts: Vec<u32> = vec![3];
    auction_patch(&preset, &mut auctions, &vec![], &mut checks, &mut subtracts, &mut rng(11));
    assert_eq!(auctions, vec![AuctionItem { item: 8 }]);
    assert_eq!(checks, vec![1, 2]);
    assert_eq!(subtracts, vec![3]);
}

fn shop(count: u32, value: u32) -> Shop {
    Shop { item_count: count, items: Pointer { value } }
}

#[test]
fn archipelago_shop_lists() {
    let shops = vec![shop(2, 0x8001_0000), shop(1, 0x8001_0006)];
    let items: Vec<u16> = vec![10, 11, 0, 12, 0];
    assert_eq!(shop_lists(&shops, &items), Ok(vec![vec![10, 11], vec![12]]));
    assert_eq!(shop_lists(&vec![], &items), Err(ArchipelagoError::EmptyShops));
}

fn logic(script: u32, conditions: u32, text_index: u32) -> EntityLogic {
    EntityLogic { script: Pointer { value: script }, conditions: Pointer { value: conditions }, text_index }
}

fn step(bitfield: u16, last_step: bool) -> ScriptStep {
    ScriptStep { bitfield, last_step }
}

fn box_entities() -> MapEntities {
    MapEntities {
        entities: vec![
            Entity { sprite: 7, logic: Pointer { value: 0 } },
            Entity { sprite: 9, logic: Pointer { value: 0x1000 } },
            Entity { sprite: 5, logic: Pointer { value: 0x100c } },
        ],
        entity_logics: vec![logic(0x2000, 0, 1), logic(0x2008, 0x1ff0, 2), logic(0, 0, 0)],
        scripts_conditions: vec![
            step(0, false),
            step(0, false),
            step(0, false),
            step(0, false),
            step(0x8012, false),
            step(0x1234, false),
            step(0x8e34, false),
            step(0, true),
            step(0x8050, false),
            step(0, false),
        ],
    }
}

#[test]
fn item_box_items_walk_scripts() {
    let items = item_box_items(&box_entities(), &vec![9, 5]);
    assert_eq!(items, vec![0x12, 0x34, 0x34, 0x34]);
    assert!(item_box_items(&box_entities(), &vec![1]).is_empty());
}

#[test]
fn item_box_items_without_logic() {
    let mut m = box_entities();
    for e in m.entities.iter_mut() {
        e.logic = Pointer { value: 0 };
    }
    assert!(item_box_items(&m, &vec![9, 5]).is_empty());
}

#[test]
fn item_boxes_named_by_map() {
    let mut later = box_entities();
    later.scripts_conditions[4] = step(0x8077, false);
    let maps = vec![
        BoxMap { file_name: "WSTAG100".to_string(), entities: Some(box_entities()) },
        BoxMap { file_name: "WSTAG200".to_string(), entities: None },
        BoxMap { file_name: "WSTAG300".to_string(), entities: Some(box_entities()) },
        BoxMap { file_name: "WSTAG100".to_string(), entities: Some(later) },
    ];
    let list = item_boxes_by_map(&maps, &vec![9]);
    assert_eq!(
        list,
        vec![
            ("WSTAG100".to_string(), vec![0x77, 0x34, 0x34]),
            ("WSTAG300".to_string(), vec![0x12, 0x34, 0x34]),
        ]
    );
}

#[test]
fn archipelago_options() {
    let shops = vec![shop(2, 0x8001_0000)];
    let items: Vec<u16> = vec![10, 11, 0];
    let maps = vec![BoxMap { file_name: "WSTAG100".to_string(), entities: Some(box_entities()) }];
    let o = generate_archipelago_yaml(&shops, &items, &maps, &vec![5]).unwrap();
    assert_eq!(o.name, "Player");
    assert_eq!(o.game, "Digimon World 2003");
    assert_eq!(o.description, "Archipelago YAML created by Digimon World 3 Randomizer");
    assert_eq!(o.options.shops, vec![vec![10, 11]]);
    assert_eq!(o.options.item_boxes, vec![("WSTAG100".to_string(), vec![0x34])]);
    assert_eq!(o.options.progression_balancing.normal, 50);
    assert_eq!(o.options.accessibility.full, 0);
    assert!(o.options.start_inventory.is_empty());
    let pb = ProgressionBalancing::default();
    assert_eq!((pb.normal, pb.random, pb.extreme), (50, 0, 0));
    let acc = Accessibility::default();
    assert_eq!((acc.full, acc.minimal), (0, 0));
    assert!(generate_archipelago_yaml(&vec![], &items, &maps, &vec![5]).is_err());
}

#[test]
fn preset_defaults() {
    assert_eq!(default_shuffles(), 5);
    let r = Randomizer::default();
    assert_eq!(r.shuffles, 5);
    assert!(r.encounters.enabled && r.parties.enabled && r.shops.enabled && r.card_game.enabled);
    assert!(r.maps.enabled && r.models.enabled && !r.models.hue_enabled);
    let e = Encounters::default();
    assert!(e.enabled && e.cardmon && e.bosses && e.keep_zanbamon && e.keep_galacticmon);
    assert_eq!(e.strategy, TNTStrategy::Swap);
    let m = Maps::default();
    assert_eq!(m.group_strategy, GroupStrategy::Party);
    assert!(m.item_boxes && m.fight_backgrounds && !m.color && !m.backgrounds);
    let s = Scaling::default();
    assert_eq!((s.base_stats, s.base_res, s.stat_modifier, s.res_modifier), (180, 620, 50, 15));
    assert_eq!(s.scaling_offset, 50);
    let p = Parties::default();
    assert!(p.enabled && p.parties && p.learned_tech);
    assert_eq!((p.total_starting_stats, p.min_starting_stat), (200, 30));
    assert_eq!((p.min_hp_modifier, p.max_hp_modifier), (60, 100));
    let c = CardGame::default();
    assert!(c.enabled && c.shop_items && c.buy_price && c.boosters);
    assert_eq!((c.min_card_buy_price, c.max_card_buy_price), (500, 11000));
}

#[test]
fn strategies_from_numbers() {
    assert_eq!(TNTStrategy::from(0u8), TNTStrategy::Shuffle);
    assert_eq!(TNTStrategy::from(1u8), TNTStrategy::Keep);
    assert_eq!(TNTStrategy::from(2u8), TNTStrategy::Swap);
    assert_eq!(GroupStrategy::from(0u8), GroupStrategy::Ungrouped);
    assert_eq!(GroupStrategy::from(1u8), GroupStrategy::ByMap);
    assert_eq!(GroupStrategy::from(2u8), GroupStrategy::Party);
    assert_eq!(ShopItems::from(0u8), ShopItems::Buyable);
    assert_eq!(ShopItems::from(1u8), ShopItems::Sellable);
}

#[test]
fn arguments_default_paths() {
    let a = Arguments::default();
    assert_eq!(a.path, None);
    assert_eq!(a.preset, None);
    assert!(!a.dump);
    assert_eq!(a.output, None);
    assert!(a.seed.is_some());
}
