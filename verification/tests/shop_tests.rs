use dmw3_randomizer::consts::TNT_BALL_ID;
use dmw3_randomizer::json::{ShopItems, Shops};
use dmw3_randomizer::shops::{
    patch, randomize_existing, randomize_limited, randomize_sell_price, shoppable, ShopsError,
};
use dmw3_randomizer::structs::{ItemShopData, Pointer, Shop};
use rand_xoshiro::rand_core::SeedableRng;
use rand_xoshiro::Xoshiro256StarStar;

fn item(buy: u16, sell: u16) -> ItemShopData {
    ItemShopData { unk_ptr: Pointer { value: 0x8000_0000 }, buy_price: buy, sell_price: sell, unk: 7 }
}

fn item_table() -> Vec<ItemShopData> {
    // ids 0..=5: the blank, one only sold, one only bought, two both, one neither
    vec![item(10, 5), item(0, 3), item(4, 0), item(8, 4), item(0, 0), item(20, 10)]
}

#[test]
fn shoppable_sellable_items() {
    let ids = shoppable(&item_table(), ShopItems::Sellable);
    assert_eq!(ids, vec![1, 3, 5]);
}

#[test]
fn shoppable_buyable_items() {
    let ids = shoppable(&item_table(), ShopItems::Buyable);
    assert_eq!(ids, vec![2, 3, 5]);
}

#[test]
fn shoppable_skips_blank_item() {
    let ids = shoppable(&vec![item(1, 1)], ShopItems::Sellable);
    assert!(ids.is_empty());
}

#[test]
fn sell_prices_within_bounds() {
    let mut data = item_table();
    let preset = Shops { min_sell_price: 50, max_sell_price: 60, keep_tnt: false, ..Shops::default() };
    let mut rng = Xoshiro256StarStar::seed_from_u64(3);
    randomize_sell_price(&preset, &mut data, &mut rng);
    assert_eq!(data[0].sell_price, 5);
    for (i, d) in data.iter().enumerate().skip(1) {
        if item_table()[i].sell_price == 0 {
            assert_eq!(d.sell_price, 0);
        } else {
            assert!(50 <= d.sell_price && d.sell_price <= 60);
        }
        assert_eq!(d.buy_price, item_table()[i].buy_price);
        assert_eq!(d.unk, 7);
    }
}

#[test]
fn sell_price_keeps_tnt_ball() {
    let mut data: Vec<ItemShopData> = (0..=TNT_BALL_ID).map(|_| item(2, 1)).collect();
    let preset = Shops { min_sell_price: 100, max_sell_price: 100, keep_tnt: true, ..Shops::default() };
    let mut rng = Xoshiro256StarStar::seed_from_u64(5);
    randomize_sell_price(&preset, &mut data, &mut rng);
    assert_eq!(data[TNT_BALL_ID as usize].sell_price, 1);
    assert_eq!(data[1].sell_price, 100);
}

#[test]
fn limited_shops_layout() {
    let mut shops = vec![
        Shop { item_count: 3, items: Pointer { value: 0x8001_0000 } },
        Shop { item_count: 5, items: Pointer { value: 0x8002_0000 } },
    ];
    let mut items: Vec<u16> = vec![9; 8];
    let pool: Vec<u16> = vec![11, 12, 13, 14];
    let mut rng = Xoshiro256StarStar::seed_from_u64(11);
    assert_eq!(randomize_limited(3, &mut shops, &mut items, &mut rng, &pool), Ok(()));
    assert_eq!(shops[0].item_count, 3);
    assert_eq!(shops[1].item_count, 3);
    assert_eq!(shops[0].items.value, 0x8001_0000);
    assert_eq!(shops[1].items.value, 0x8001_0000 + 8);
    for s in 0..2 {
        let list = &items[s * 4..s * 4 + 3];
        for (a, x) in list.iter().enumerate() {
            assert!(pool.contains(x));
            for y in &list[a + 1..] {
                assert_ne!(x, y);
            }
        }
        assert_eq!(items[s * 4 + 3], 0);
    }
}

#[test]
fn limited_shops_without_shops_fails() {
    let mut shops: Vec<Shop> = vec![];
    let mut items: Vec<u16> = vec![1, 2, 0];
    let mut rng = Xoshiro256StarStar::seed_from_u64(1);
    let r = randomize_limited(2, &mut shops, &mut items, &mut rng, &vec![5, 6]);
    assert_eq!(r, Err(ShopsError::EmptyShops));
    assert_eq!(items, vec![1, 2, 0]);
}

#[test]
fn existing_shops_keep_blanks() {
    let mut items: Vec<u16> = vec![4, 4, 0, 7, 0, 8, 9, 10];
    let pool: Vec<u16> = vec![21, 22, 23, 24];
    let mut rng = Xoshiro256StarStar::seed_from_u64(9);
    randomize_existing(&mut items, &mut rng, &pool);
    assert_eq!(items[2], 0);
    assert_eq!(items[4], 0);
    for k in [0, 1, 3, 5, 6, 7] {
        assert!(pool.contains(&items[k]));
    }
    assert_ne!(items[0], items[1]);
    assert_ne!(items[5], items[6]);
    assert_ne!(items[6], items[7]);
    assert_ne!(items[5], items[7]);
}

#[test]
fn patch_sets_buy_price_to_twice_sell_price() {
    let mut data = item_table();
    let mut shops = vec![Shop { item_count: 2, items: Pointer { value: 0x8001_0000 } }];
    let mut items: Vec<u16> = vec![1, 3, 0];
    let preset = Shops {
        limit_shop_items_enabled: false,
        sell_price: false,
        ..Shops::default()
    };
    let mut rng = Xoshiro256StarStar::seed_from_u64(2);
    assert_eq!(patch(&preset, &mut data, &mut shops, &mut items, &mut rng), Ok(()));
    assert_eq!(data[0].buy_price, 10);
    assert_eq!(data[1].buy_price, 6);
    assert_eq!(data[2].buy_price, 0);
    assert_eq!(data[5].buy_price, 20);
    assert_eq!(items[2], 0);
    assert!(items[0] != items[1]);
    assert!([1, 3, 5].contains(&items[0]) && [1, 3, 5].contains(&items[1]));
}

#[test]
fn patch_limited_without_shops_fails() {
    let mut data = item_table();
    let mut shops: Vec<Shop> = vec![];
    let mut items: Vec<u16> = vec![];
    let preset = Shops { limit_shop_items: 2, ..Shops::default() };
    let mut rng = Xoshiro256StarStar::seed_from_u64(2);
    assert_eq!(patch(&preset, &mut data, &mut shops, &mut items, &mut rng), Err(ShopsError::EmptyShops));
    assert_eq!(data[1].buy_price, 0);
}

#[test]
fn shops_default_settings() {
    let s = Shops::default();
    assert!(s.enabled && s.limit_shop_items_enabled && s.sell_price && s.keep_tnt);
    assert_eq!(s.limit_shop_items, 8);
    assert_eq!(s.min_sell_price, 6);
    assert_eq!(s.max_sell_price, 6000);
}
