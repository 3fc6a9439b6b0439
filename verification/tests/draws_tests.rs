use dmw3_randomizer::auctions::{auction_values_with_draws, Auction, BITS_CHECK_COUNT};
use dmw3_randomizer::card_game::{pricing_with_draws, CardPricing};
use dmw3_randomizer::entities::{Entity, EntityLogic, MapEntities, ScriptStep};
use dmw3_randomizer::item_boxes::{item_boxes, item_boxes_with_draws, received_texts, TextGroup};
use dmw3_randomizer::json::{CardGame, ShopItems, Shops};
use dmw3_randomizer::parties::random_parties_with_draws;
use dmw3_randomizer::shops::randomize_sell_price_with_draws;
use dmw3_randomizer::structs::{ItemShopData, Pointer};
use rand_xoshiro::rand_core::SeedableRng;
use rand_xoshiro::Xoshiro256StarStar;

fn logic(script: u32, conditions: u32, text_index: u32) -> EntityLogic {
    EntityLogic { script: Pointer { value: script }, conditions: Pointer { value: conditions }, text_index }
}

fn step(bitfield: u16, last_step: bool) -> ScriptStep {
    ScriptStep { bitfield, last_step }
}

fn boxes() -> MapEntities {
    MapEntities {
        entities: vec![
            Entity { sprite: 7, logic: Pointer { value: 0 } },
            Entity { sprite: 9, logic: Pointer { value: 0x1000 } },
            Entity { sprite: 5, logic: Pointer { value: 0x100c } },
        ],
        entity_logics: vec![logic(0x2000, 0, 1), logic(0x2008, 0x1ff0, 2), logic(0, 0, 0)],
        scripts_conditions: vec![
            step(0, false),
            step(0, false),
            step(0, false),
            step(0, false),
            step(0x8012, false),
            step(0x1234, false),
            step(0x8e34, false),
            step(0, true),
            step(0x8050, false),
            step(0, false),
        ],
    }
}

fn item(buy: u16, sell: u16) -> ItemShopData {
    ItemShopData { unk_ptr: Pointer { value: 0 }, buy_price: buy, sell_price: sell, unk: 0 }
}

#[test]
fn item_boxes_given_draws() {
    let mut maps = vec![boxes()];
    let placed = item_boxes_with_draws(&mut maps, &vec![9, 5], &vec![100, 200, 300], &vec![1, 2, 5]);
    // the first box's logic gives two items; the second box's logic
    // starts at the second script, whose step no longer gives an item
    // once item 300 set its bit 8
    assert_eq!(placed, vec![(0, 0, 200), (0, 1, 300)]);
    let s: Vec<u16> = maps[0].scripts_conditions.iter().map(|x| x.bitfield).collect();
    assert_eq!(s[4], 0x80c8);
    assert_eq!(s[6], 0x8f2c);
    assert_eq!(s[8], 0x8050);
    assert_eq!(maps[0].entity_logics[0].text_index, 1);
}

#[test]
fn item_boxes_with_no_box_sprites_change_nothing() {
    let mut maps = vec![boxes()];
    let placed = item_boxes_with_draws(&mut maps, &vec![1], &vec![100], &vec![]);
    assert!(placed.is_empty());
    assert_eq!(maps[0].scripts_conditions[4].bitfield, 0x8012);
}

#[test]
fn item_boxes_draw_from_shoppable_pool() {
    let data = vec![item(0, 0), item(10, 5), item(0, 0), item(20, 10)];
    for seed in 0..20u64 {
        let mut maps = vec![boxes(), boxes()];
        let mut rng = Xoshiro256StarStar::seed_from_u64(seed);
        let placed = item_boxes(&mut maps, &vec![9, 5], &data, ShopItems::Buyable, &mut rng);
        assert!(placed.len() >= 2);
        for (m, _, it) in &placed {
            assert!(*m < 2);
            assert!(*it == 1 || *it == 3);
        }
    }
}

#[test]
fn auction_checks_given_draws() {
    let preset = Auction {
        enabled: true,
        auction_items: false,
        auction_items_pool: ShopItems::Buyable,
        auction_values: true,
        auction_values_min: 100,
        auction_values_max: 109,
    };
    let mut checks = vec![0u32; BITS_CHECK_COUNT + 1];
    let mut subtracts = vec![7u32; BITS_CHECK_COUNT + 1];
    let draws: Vec<u32> = (0..BITS_CHECK_COUNT as u32).map(|x| x * 7).collect();
    auction_values_with_draws(&preset, &mut checks, &mut subtracts, &draws);
    assert_eq!(&checks[..3], &[100, 107, 104]);
    assert_eq!(checks[..BITS_CHECK_COUNT], subtracts[..BITS_CHECK_COUNT]);
    assert_eq!(checks[BITS_CHECK_COUNT], 0);
    assert_eq!(subtracts[BITS_CHECK_COUNT], 7);
}

#[test]
fn sell_prices_given_draws() {
    let preset = Shops {
        enabled: true,
        limit_shop_items_enabled: false,
        limit_shop_items: 0,
        items_only: ShopItems::Buyable,
        sell_price: true,
        min_sell_price: 10,
        max_sell_price: 19,
        keep_tnt: false,
    };
    let mut data = vec![item(0, 0), item(10, 5), item(0, 0), item(20, 10)];
    randomize_sell_price_with_draws(&preset, &mut data, &vec![3, 23, 9, 45]);
    // item 0 and the unsold item 2 keep their prices
    assert_eq!(data.iter().map(|d| d.sell_price).collect::<Vec<_>>(), vec![0, 13, 0, 15]);
    assert_eq!(data[1].buy_price, 10);
}

#[test]
fn card_prices_given_draws() {
    let preset = CardGame {
        enabled: true,
        shop_items: false,
        buy_price: true,
        min_card_buy_price: -5,
        max_card_buy_price: 4,
        boosters: false,
        starting_folder: false,
    };
    let mut cards = vec![CardPricing { card_id: 1, pricing: 0 }, CardPricing { card_id: 2, pricing: 0 }];
    pricing_with_draws(&preset, &mut cards, &vec![3, 27]);
    assert_eq!(cards[0].pricing, -2);
    assert_eq!(cards[1].pricing, 2);
    assert_eq!(cards[1].card_id, 2);
}

#[test]
fn parties_given_draws() {
    let mut parties = vec![0u8; 10];
    parties[9] = 42;
    // window from 7 % 6 = 1; first shuffle trades 0 and 7, the others keep
    // the order
    let d1: Vec<usize> = vec![7, 0, 0, 0, 0, 0, 0];
    let d0: Vec<usize> = vec![0; 7];
    random_parties_with_draws(&mut parties, 7, &vec![d1, d0.clone(), d0]);
    assert_eq!(&parties[..9], &[1, 2, 3, 1, 2, 3, 1, 2, 3]);
    assert_eq!(parties[9], 42);
    let mut parties = vec![0u8; 9];
    random_parties_with_draws(&mut parties, 0, &vec![vec![7, 0, 0, 0, 0, 0, 0], vec![], vec![]]);
    assert_eq!(&parties[..3], &[7, 1, 2]);
}

fn talk_group() -> TextGroup {
    let lang = |c: u8| vec![vec![c, 0, 0, 0], vec![c + 1, 0, 0, 0], vec![c + 2, 0, 0, 0]];
    TextGroup { files: vec![lang(b'a'), lang(b'x')], mapped_items: vec![], overwritten: vec![] }
}

fn names() -> Vec<Vec<Vec<u8>>> {
    vec![vec![vec![], vec![b'A', 0], vec![b'B']], vec![vec![], vec![b'C', 0, 0], vec![b'D']]]
}

fn frames() -> Vec<(Vec<u8>, Vec<u8>)> {
    vec![(vec![b'<'], vec![b'>']), (vec![b'('], vec![b')'])]
}

#[test]
fn received_texts_overwrite_then_reuse() {
    let mut maps = vec![boxes()];
    let mut groups = vec![talk_group()];
    let placed = vec![(0, 0, 1), (0, 1, 2), (0, 0, 2), (0, 1, 1)];
    received_texts(&mut maps, &mut groups, &vec![0], &placed, &names(), &frames());
    // the first two overwrite the logic's own texts, the last two reuse them
    assert_eq!(groups[0].files[0][1], vec![b'<', b'A', b'>', 0]);
    assert_eq!(groups[0].files[0][2], vec![b'<', b'B', b'>', 0]);
    assert_eq!(groups[0].files[1][1], vec![b'(', b'C', b')', 0]);
    assert_eq!(groups[0].files[0][0], vec![b'a', 0, 0, 0]);
    assert_eq!(groups[0].files[0].len(), 3);
    assert_eq!(maps[0].entity_logics[0].text_index, 2);
    assert_eq!(maps[0].entity_logics[1].text_index, 1);
    assert_eq!(groups[0].mapped_items, vec![(1, 1), (2, 2)]);
    assert_eq!(groups[0].overwritten, vec![1, 2]);
}

#[test]
fn received_texts_append_after_overwrite() {
    let mut maps = vec![boxes()];
    let mut groups = vec![talk_group()];
    let placed = vec![(0, 0, 1), (0, 0, 2)];
    received_texts(&mut maps, &mut groups, &vec![0], &placed, &names(), &frames());
    // the logic's text was overwritten already: the second item's text is
    // added at the end
    assert_eq!(groups[0].files[0].len(), 4);
    assert_eq!(groups[0].files[1].len(), 4);
    assert_eq!(groups[0].files[0][3], vec![b'<', b'B', b'>', 0]);
    assert_eq!(groups[0].files[1][3], vec![b'(', b'D', b')', 0]);
    assert_eq!(maps[0].entity_logics[0].text_index, 3);
    assert_eq!(groups[0].mapped_items, vec![(1, 1), (2, 3)]);
    assert_eq!(groups[0].overwritten, vec![1]);
}
