//! Item shops: what they sell and at which prices.

use crate::consts::TNT_BALL_ID;
use crate::json::{ShopItems, Shops};
use crate::structs::{ItemShopData, Shop};
use crate::util::{copy_vec, lemma_picked_push, picked, strictly_increasing, take_drawn};
use crate::rng::next_u64;
use rand_xoshiro::Xoshiro256StarStar;
use vstd::prelude::*;

verus! {

/// Why the shops could not be randomized.
#[derive(Debug, Clone, Copy, PartialEq, Eq, Structural)]
pub enum ShopsError {
    /// There is no shop to take the first item list address from.
    EmptyShops,
}

/// Item `i` may be put in a shop: it is not the blank item 0 and it can be
/// bought (or sold, depending on the setting).
pub open spec fn is_shoppable(data: Seq<ItemShopData>, items_only: ShopItems, i: int) -> bool {
    &&& 1 <= i < data.len()
    &&& match items_only {
        ShopItems::Buyable => data[i].buy_price > 0,
        ShopItems::Sellable => data[i].sell_price > 0,
    }
}

/// How many of the items below `n` may be put in a shop.
pub open spec fn shoppable_count(data: Seq<ItemShopData>, items_only: ShopItems, n: int) -> nat
    decreases n,
{
    if n <= 1 {
        0
    } else {
        shoppable_count(data, items_only, n - 1) + if is_shoppable(data, items_only, n - 1) {
            1nat
        } else {
            0nat
        }
    }
}


/// The ids of the items that may be put in a shop, in increasing order.
pub fn shoppable(data: &Vec<ItemShopData>, items_only: ShopItems) -> (ids: Vec<u16>)
    requires
        data.len() <= 0x10000,
    ensures
        strictly_increasing(ids@),
        forall|x: u16| #[trigger] ids@.contains(x) <==> is_shoppable(data@, items_only, x as int),
        ids.len() == shoppable_count(data@, items_only, data.len() as int),
{
    let len = data.len();
    let mut ids: Vec<u16> = Vec::new();
    let mut i: usize = 1;
    while i < len
        invariant
            len == data.len() <= 0x10000,
            1 <= i && (i <= len || i == 1),
            strictly_increasing(ids@),
            ids.len() == shoppable_count(data@, items_only, i as int),
            forall|k: int| 0 <= k < ids.len() ==> ids@[k] < i,
            forall|x: u16| #[trigger] ids@.contains(x) <==> (is_shoppable(data@, items_only, x as int) && x < i),
        decreases len - i,
    {
        let take = match items_only {
            ShopItems::Buyable => data[i].buy_price > 0,
            ShopItems::Sellable => data[i].sell_price > 0,
        };
        let ghost before = ids@;
        assert(is_shoppable(data@, items_only, i as int) == take);
        assert((i as u16) as int == i as int);
        if take {
            ids.push(i as u16);
            proof {
                assert forall|x: u16| #[trigger] ids@.contains(x) <==> (is_shoppable(data@, items_only, x as int) && x < i + 1) by {
                    if ids@.contains(x) && x != i as u16 {
                        let k = choose|k: int| 0 <= k < ids.len() && ids@[k] == x;
                        assert(k < before.len());
                        assert(before.contains(x));
                    }
                    if is_shoppable(data@, items_only, x as int) && x < i && x != i as u16 {
                        assert(before.contains(x));
                        let k = choose|k: int| 0 <= k < before.len() && before[k] == x;
                        assert(ids@[k] == x);
                    }
                    if x == i as u16 {
                        assert(ids@[ids.len() - 1] == x);
                    }
                }
            }
        } else {
            proof {
                assert forall|x: u16| #[trigger] ids@.contains(x) <==> (is_shoppable(data@, items_only, x as int) && x < i + 1) by {
                    if x == i {
                        assert(!is_shoppable(data@, items_only, x as int));
                    }
                    if ids@.contains(x) {
                        let k = choose|k: int| 0 <= k < ids.len() && ids@[k] == x;
                        assert(ids@[k] < i);
                    }
                }
            }
        }
        i += 1;
    }
    proof {
        if len == 0 {
            assert(shoppable_count(data@, items_only, 0) == 0);
            assert(shoppable_count(data@, items_only, 1) == 0);
        } else {
            assert(i == len);
        }

        assert forall|x: u16| #[trigger] ids@.contains(x) <==> is_shoppable(data@, items_only, x as int) by {
            if is_shoppable(data@, items_only, x as int) {
                assert(x < i);
            }
        }
    }
    ids
}

/// Item `i` gets a new sell price: it is sold at all, and it is not the TNT
/// Ball while the TNT Ball is to keep its price.
pub open spec fn gets_new_price(data: Seq<ItemShopData>, keep_tnt: bool, i: int) -> bool {
    &&& 1 <= i < data.len()
    &&& data[i].sell_price != 0
    &&& !(i == TNT_BALL_ID && keep_tnt)
}

/// What `randomize_sell_price` does to the item data.
pub open spec fn sell_prices_randomized(
    old_data: Seq<ItemShopData>,
    new_data: Seq<ItemShopData>,
    preset: Shops,
) -> bool {
    &&& new_data.len() == old_data.len()
    &&& forall|i: int|
        0 <= i < old_data.len() ==> {
            &&& (#[trigger] new_data[i]).buy_price == old_data[i].buy_price
            &&& new_data[i].unk_ptr == old_data[i].unk_ptr
            &&& new_data[i].unk == old_data[i].unk
            &&& if gets_new_price(old_data, preset.keep_tnt, i) {
                preset.min_sell_price <= new_data[i].sell_price <= preset.max_sell_price
            } else {
                new_data[i].sell_price == old_data[i].sell_price
            }
        }
}

/// The sell price that draw `d` gives: the preset's minimum plus the draw
/// modulo the size of the preset's range.
pub open spec fn price_of_draw(preset: Shops, d: u64) -> int {
    preset.min_sell_price + (d as int) % (preset.max_sell_price - preset.min_sell_price + 1)
}

/// The sell prices are redrawn with the given draws, one for each item:
/// every item that gets a new price takes `price_of_draw` of its draw.
pub open spec fn sell_prices_drawn(
    old_data: Seq<ItemShopData>,
    new_data: Seq<ItemShopData>,
    preset: Shops,
    draws: Seq<u64>,
) -> bool {
    &&& sell_prices_randomized(old_data, new_data, preset)
    &&& forall|i: int|
        0 <= i < old_data.len() && gets_new_price(old_data, preset.keep_tnt, i) ==> #[trigger] new_data[i].sell_price
            == price_of_draw(preset, draws[i])
}

/// Gives every sold item, but the kept TNT Ball and the blank item 0, the
/// sell price of its draw: the preset's minimum plus the draw modulo the
/// size of the range. The draw of an item that keeps its price is unused.
pub fn randomize_sell_price_with_draws(preset: &Shops, data: &mut Vec<ItemShopData>, draws: &Vec<u64>)
    requires
        old(data).len() <= 0x10000,
        draws.len() == old(data).len(),
        0 <= preset.min_sell_price <= preset.max_sell_price <= u16::MAX,
    ensures
        sell_prices_drawn(old(data)@, final(data)@, *preset, draws@),
{
    let min_price = preset.min_sell_price;
    let range = preset.max_sell_price - min_price + 1;
    let len = data.len();
    if len == 0 {
        return;
    }
    let mut i: usize = 1;
    while i < len
        invariant
            len == data.len() == old(data).len() == draws.len() <= 0x10000,
            1 <= i <= len,
            0 <= min_price == preset.min_sell_price <= preset.max_sell_price <= u16::MAX,
            range == preset.max_sell_price - min_price + 1,
            data@[0] == old(data)@[0],
            forall|k: int| i <= k < len ==> #[trigger] data@[k] == old(data)@[k],
            forall|k: int|
                1 <= k < i ==> {
                    &&& (#[trigger] data@[k]).buy_price == old(data)@[k].buy_price
                    &&& data@[k].unk_ptr == old(data)@[k].unk_ptr
                    &&& data@[k].unk == old(data)@[k].unk
                    &&& if gets_new_price(old(data)@, preset.keep_tnt, k) {
                        &&& preset.min_sell_price <= data@[k].sell_price <= preset.max_sell_price
                        &&& data@[k].sell_price == price_of_draw(*preset, draws@[k])
                    } else {
                        data@[k].sell_price == old(data)@[k].sell_price
                    }
                },
        decreases len - i,
    {
        let mut item = data[i];
        let fresh = item.sell_price != 0 && !(i as u16 == TNT_BALL_ID && preset.keep_tnt);
        assert(fresh == gets_new_price(old(data)@, preset.keep_tnt, i as int));
        if fresh {
            let r = draws[i] % (range as u64);
            item.sell_price = min_price as u16 + r as u16;
        }
        data.set(i, item);
        i += 1;
    }
    assert forall|k: int| 0 <= k < old(data).len() implies {
        &&& (#[trigger] data@[k]).buy_price == old(data)@[k].buy_price
        &&& data@[k].unk_ptr == old(data)@[k].unk_ptr
        &&& data@[k].unk == old(data)@[k].unk
        &&& if gets_new_price(old(data)@, preset.keep_tnt, k) {
            preset.min_sell_price <= data@[k].sell_price <= preset.max_sell_price
        } else {
            data@[k].sell_price == old(data)@[k].sell_price
        }
    } by {
        if k == 0 {
            assert(data@[0] == old(data)@[0]);
        }
    }
}

/// Gives every sold item, but the kept TNT Ball and the blank item 0, a
/// random sell price between the preset's bounds: one `next_u64` draw for
/// each such item, in order (`randomize_sell_price_with_draws`).
pub fn randomize_sell_price(preset: &Shops, data: &mut Vec<ItemShopData>, rng: &mut Xoshiro256StarStar)
    requires
        old(data).len() <= 0x10000,
        0 <= preset.min_sell_price <= preset.max_sell_price <= u16::MAX,
    ensures
        sell_prices_randomized(old(data)@, final(data)@, *preset),
        exists|draws: Seq<u64>|
            #![trigger sell_prices_drawn(old(data)@, final(data)@, *preset, draws)]
            draws.len() == old(data).len() && sell_prices_drawn(old(data)@, final(data)@, *preset, draws),
{
    let mut draws: Vec<u64> = Vec::new();
    let len = data.len();
    let mut i: usize = 0;
    while i < len
        invariant
            len == data.len(),
            i <= len,
            draws.len() == i,
        decreases len - i,
    {
        let fresh = i >= 1 && data[i].sell_price != 0 && !(i as u16 == TNT_BALL_ID && preset.keep_tnt);
        if fresh {
            draws.push(next_u64(rng));
        } else {
            draws.push(0);
        }
        i += 1;
    }
    randomize_sell_price_with_draws(preset, data, &draws);
}

/// What `randomize_limited` does to the shops and their item lists, with
/// `first` the item list address of the first shop before the call.
pub open spec fn shops_limited(
    old_shops: Seq<Shop>,
    new_shops: Seq<Shop>,
    old_items: Seq<u16>,
    new_items: Seq<u16>,
    limit: u8,
    pool: Seq<u16>,
) -> bool {
    let lp1 = limit as int + 1;
    let first = old_shops[0].items.value;
    &&& new_shops.len() == old_shops.len()
    &&& new_items.len() == old_items.len()
    &&& forall|i: int|
        0 <= i < old_shops.len() ==> {
            &&& (#[trigger] new_shops[i]).item_count == limit
            &&& new_shops[i].items.value == first + i * lp1 * 2
        }
    &&& forall|i: int, j: int|
        0 <= i < old_shops.len() && 0 <= j < limit ==> pool.contains(
            #[trigger] new_items[i * lp1 + j],
        )
    &&& forall|i: int, j1: int, j2: int|
        0 <= i < old_shops.len() && 0 <= j1 < j2 < limit ==> #[trigger] new_items[i * lp1 + j1]
            != #[trigger] new_items[i * lp1 + j2]
    &&& forall|i: int| 0 <= i < old_shops.len() ==> #[trigger] new_items[i * lp1 + limit] == 0
    &&& forall|k: int| old_shops.len() * lp1 <= k < old_items.len() ==> #[trigger] new_items[k] == old_items[k]
}

/// Gives every shop exactly `limit` different items from the pool, lays the
/// item lists out one after another from the first shop's list on, each
/// closed by a blank item, and points every shop at its list.
/// Draw `i * limit + j` picks item `j` of shop `i` from what is left of
/// the pool for that shop.
pub fn randomize_limited_with_draws(
    limit: u8,
    shops: &mut Vec<Shop>,
    shop_items: &mut Vec<u16>,
    draws: &Vec<u64>,
    shoppable: &Vec<u16>,
) -> (res: Result<(), ShopsError>)
    requires
        shoppable@.no_duplicates(),
        shoppable.len() >= limit,
        old(shop_items).len() >= old(shops).len() * (limit + 1),
        old(shops).len() > 0 ==> old(shops)@[0].items.value + old(shops).len() * (limit + 1) * 2
            <= u32::MAX,
        draws.len() == old(shops).len() * limit,
    ensures
        res is Err <==> old(shops).len() == 0,
        res is Err ==> final(shops)@ == old(shops)@ && final(shop_items)@ == old(shop_items)@,
        res is Ok ==> shops_limited(
            old(shops)@,
            final(shops)@,
            old(shop_items)@,
            final(shop_items)@,
            limit,
            shoppable@,
        ),
        res is Ok ==> limited_drawn(final(shop_items)@, limit, old(shops).len() as int, shoppable@, draws@),
{
    if shops.len() == 0 {
        return Err(ShopsError::EmptyShops);
    }
    let mut ptr = shops[0].items;
    let ghost first = ptr.value as int;
    let n = shops.len();
    let lp1 = (limit as usize) + 1;
    let mut i: usize = 0;
    while i < n
        invariant
            n == shops.len() == old(shops).len(),
            n > 0,
            first == old(shops)@[0].items.value,
            first + n * (limit + 1) * 2 <= u32::MAX,
            lp1 == limit + 1,
            shop_items.len() == old(shop_items).len() >= n * lp1,
            shoppable@.no_duplicates(),
            shoppable.len() >= limit,
            i <= n,
            ptr.value == first + i * lp1 * 2,
            forall|a: int|
                0 <= a < i ==> {
                    &&& (#[trigger] shops@[a]).item_count == limit
                    &&& shops@[a].items.value == first + a * lp1 * 2
                },
            forall|a: int, j: int|
                0 <= a < i && 0 <= j < limit ==> shoppable@.contains(#[trigger] shop_items@[a * lp1 + j]),
            forall|a: int, j1: int, j2: int|
                0 <= a < i && 0 <= j1 < j2 < limit ==> #[trigger] shop_items@[a * lp1 + j1]
                    != #[trigger] shop_items@[a * lp1 + j2],
            forall|a: int| 0 <= a < i ==> #[trigger] shop_items@[a * lp1 + limit] == 0,
            forall|k: int| i * lp1 <= k < shop_items.len() ==> #[trigger] shop_items@[k] == old(shop_items)@[k],
            draws.len() == n * limit,
            forall|a: int, j: int|
                0 <= a < i && 0 <= j < limit ==> #[trigger] shop_items@[a * lp1 + j] == picked(
                    shoppable@,
                    draws@.subrange(a * limit, a * limit + limit),
                ).0[j],
        decreases n - i,
    {
        proof {
            assert((i + 1) * lp1 <= n * lp1) by (nonlinear_arith)
                requires i < n;
            assert((i + 1) * lp1 == i * lp1 + lp1) by (nonlinear_arith);
            assert(ptr.value + lp1 * 2 <= first + n * lp1 * 2) by (nonlinear_arith)
                requires ptr.value == first + i * lp1 * 2, i < n;
        }
        let mut pool = copy_vec(shoppable);
        let mut shop = shops[i];
        shop.items = ptr;
        shop.item_count = limit as u32;
        shops.set(i, shop);
        let base = i * lp1;
        proof {
            assert(i * (limit as int) + limit <= n * limit) by (nonlinear_arith)
                requires i < n;
        }
        let dbase = i * (limit as usize);
        let ghost outer = shop_items@;
        assert(draws@.subrange(dbase as int, dbase as int) =~= Seq::<u64>::empty());
        let mut j: usize = 0;
        while j < limit as usize
            invariant
                i < n,
                lp1 == limit + 1,
                base == i * lp1,
                base + lp1 <= shop_items.len(),
                shop_items.len() == outer.len(),
                shoppable.len() >= limit,
                pool@.no_duplicates(),
                j <= limit,
                pool.len() == shoppable.len() - j,
                forall|y: u16| #[trigger] pool@.contains(y) ==> shoppable@.contains(y),
                forall|k: int| 0 <= k < j ==> shoppable@.contains(#[trigger] shop_items@[base + k]),
                forall|k: int| 0 <= k < j ==> !pool@.contains(#[trigger] shop_items@[base + k]),
                forall|k1: int, k2: int| 0 <= k1 < k2 < j ==> #[trigger] shop_items@[base + k1] != #[trigger] shop_items@[base + k2],
                forall|k: int| 0 <= k < base ==> #[trigger] shop_items@[k] == outer[k],
                forall|k: int| base + j <= k < shop_items.len() ==> #[trigger] shop_items@[k] == outer[k],
                dbase == i * limit,
                dbase + limit <= draws.len(),
                pool@ == picked(shoppable@, draws@.subrange(dbase as int, dbase + j)).1,
                picked(shoppable@, draws@.subrange(dbase as int, dbase + j)).0.len() == j,
                forall|k: int| 0 <= k < j ==> #[trigger] shop_items@[base + k] == picked(
                    shoppable@,
                    draws@.subrange(dbase as int, dbase + j),
                ).0[k],
            decreases limit - j,
        {
            let ghost before = shop_items@;
            let d = draws[dbase + j];
            let item = take_drawn(&mut pool, d);
            shop_items.set(base + j, item);
            proof {
                let ds = draws@.subrange(dbase as int, dbase + j);
                lemma_picked_push(shoppable@, ds, d);
                assert(draws@.subrange(dbase as int, dbase + j + 1) =~= ds.push(d));
                assert forall|k: int| 0 <= k < j + 1 implies #[trigger] shop_items@[base + k] == picked(
                    shoppable@,
                    draws@.subrange(dbase as int, dbase + j + 1),
                ).0[k] by {
                    if k < j {
                        assert(shop_items@[base + k] == before[base + k]);
                    }
                }
                assert forall|k: int| 0 <= k < j + 1 implies !pool@.contains(#[trigger] shop_items@[base + k]) by {
                    if k < j {
                        assert(shop_items@[base + k] == before[base + k]);
                    }
                }
                assert forall|k: int| 0 <= k < j + 1 implies shoppable@.contains(#[trigger] shop_items@[base + k]) by {
                    if k < j {
                        assert(shop_items@[base + k] == before[base + k]);
                    }
                }
                assert forall|k1: int, k2: int| 0 <= k1 < k2 < j + 1 implies #[trigger] shop_items@[base + k1] != #[trigger] shop_items@[base + k2] by {
                    assert(shop_items@[base + k1] == before[base + k1]);
                    if k2 < j {
                        assert(shop_items@[base + k2] == before[base + k2]);
                    } else {
                        assert(!pool@.contains(before[base + k1]));
                        assert(!pool@.contains(item));
                    }
                }
            }
            j += 1;
        }
        shop_items.set(base + limit as usize, 0);
        proof {
            assert forall|a: int, jj: int|
                0 <= a < i + 1 && 0 <= jj < limit implies shoppable@.contains(#[trigger] shop_items@[a * lp1 + jj]) by {
                if a < i {
                    assert(a * lp1 + jj < base) by (nonlinear_arith)
                        requires a < i, jj < lp1, base == i * lp1;
                    assert(shop_items@[a * lp1 + jj] == outer[a * lp1 + jj]);
                } else {
                    assert(a * lp1 + jj == base + jj);
                }
            }
            assert forall|a: int, j1: int, j2: int|
                0 <= a < i + 1 && 0 <= j1 < j2 < limit implies #[trigger] shop_items@[a * lp1 + j1]
                    != #[trigger] shop_items@[a * lp1 + j2] by {
                if a < i {
                    assert(a * lp1 + j1 < base) by (nonlinear_arith)
                        requires a < i, j1 < lp1, base == i * lp1;
                    assert(a * lp1 + j2 < base) by (nonlinear_arith)
                        requires a < i, j2 < lp1, base == i * lp1;
                    assert(shop_items@[a * lp1 + j1] == outer[a * lp1 + j1]);
                    assert(shop_items@[a * lp1 + j2] == outer[a * lp1 + j2]);
                } else {
                    assert(a * lp1 + j1 == base + j1);
                    assert(a * lp1 + j2 == base + j2);
                }
            }
            assert forall|a: int, jj: int|
                0 <= a < i + 1 && 0 <= jj < limit implies #[trigger] shop_items@[a * lp1 + jj] == picked(
                    shoppable@,
                    draws@.subrange(a * limit, a * limit + limit),
                ).0[jj] by {
                if a < i {
                    assert(a * lp1 + jj < base) by (nonlinear_arith)
                        requires a < i, jj < lp1, base == i * lp1;
                    assert(shop_items@[a * lp1 + jj] == outer[a * lp1 + jj]);
                } else {
                    assert(a * lp1 + jj == base + jj);
                    assert(a * limit == dbase);
                }
            }
            assert forall|a: int| 0 <= a < i + 1 implies #[trigger] shop_items@[a * lp1 + limit] == 0 by {
                if a < i {
                    assert(a * lp1 + limit < base) by (nonlinear_arith)
                        requires a < i, limit < lp1, base == i * lp1;
                    assert(shop_items@[a * lp1 + limit] == outer[a * lp1 + limit]);
                } else {
                    assert(a * lp1 + limit == base + limit);
                }
            }
            assert((i + 1) * lp1 == base + lp1) by (nonlinear_arith)
                requires base == i * lp1;
            assert((i + 1) * lp1 * 2 == i * lp1 * 2 + lp1 * 2) by (nonlinear_arith);
        }
        ptr.value = ptr.value + (lp1 as u32) * 2;
        i += 1;
    }
    Ok(())
}

/// Gives every shop exactly `limit` different items from the pool, as
/// `randomize_limited_with_draws` does with `limit` `next_u64` draws a
/// shop, in order.
pub fn randomize_limited(
    limit: u8,
    shops: &mut Vec<Shop>,
    shop_items: &mut Vec<u16>,
    rng: &mut Xoshiro256StarStar,
    shoppable: &Vec<u16>,
) -> (res: Result<(), ShopsError>)
    requires
        shoppable@.no_duplicates(),
        shoppable.len() >= limit,
        old(shop_items).len() >= old(shops).len() * (limit + 1),
        old(shops).len() > 0 ==> old(shops)@[0].items.value + old(shops).len() * (limit + 1) * 2
            <= u32::MAX,
    ensures
        res is Err <==> old(shops).len() == 0,
        res is Err ==> final(shops)@ == old(shops)@ && final(shop_items)@ == old(shop_items)@,
        res is Ok ==> shops_limited(
            old(shops)@,
            final(shops)@,
            old(shop_items)@,
            final(shop_items)@,
            limit,
            shoppable@,
        ),
        res is Ok ==> exists|draws: Seq<u64>|
            #![trigger limited_drawn(final(shop_items)@, limit, old(shops).len() as int, shoppable@, draws)]
            draws.len() == old(shops).len() * limit && limited_drawn(
                final(shop_items)@,
                limit,
                old(shops).len() as int,
                shoppable@,
                draws,
            ),
{
    if shops.len() == 0 {
        return Err(ShopsError::EmptyShops);
    }
    let mut draws: Vec<u64> = Vec::new();
    let n = shops.len();
    let mut i: usize = 0;
    while i < n
        invariant
            i <= n,
            n == shops.len(),
            n * (limit + 1) <= shop_items.len(),
            draws.len() == i * limit,
        decreases n - i,
    {
        let mut j: u8 = 0;
        while j < limit
            invariant
                j <= limit,
                i < n,
                draws.len() == i * limit + j,
            decreases limit - j,
        {
            draws.push(next_u64(rng));
            j += 1;
        }
        proof {
            assert((i + 1) * (limit as int) == i * limit + limit) by (nonlinear_arith);
        }
        i += 1;
    }
    randomize_limited_with_draws(limit, shops, shop_items, &draws, shoppable)
}

/// The shops' items were drawn with the given draws: item `j` of shop `i`
/// is the `j`-th that draws `i * limit` to `i * limit + limit` take from
/// the pool (`picked`).
pub open spec fn limited_drawn(new_items: Seq<u16>, limit: u8, n: int, pool: Seq<u16>, draws: Seq<u64>) -> bool {
    forall|i: int, j: int|
        0 <= i < n && 0 <= j < limit ==> #[trigger] new_items[i * (limit as int + 1) + j] == picked(
            pool,
            draws.subrange(i * limit, i * limit + limit),
        ).0[j]
}


/// No position from `i` to `j`, both included, holds the blank item.
pub open spec fn no_blank_between(items: Seq<u16>, i: int, j: int) -> bool {
    forall|k: int| i <= k <= j ==> #[trigger] items[k] != 0
}

/// Every run of items between blanks is at most as long as the pool.
pub open spec fn runs_fit(items: Seq<u16>, pool_len: int) -> bool {
    forall|i: int, j: int|
        0 <= i <= j < items.len() && #[trigger] no_blank_between(items, i, j) ==> j - i < pool_len
}

/// What `randomize_existing` does to the shops' item lists.
pub open spec fn items_replaced(old_items: Seq<u16>, new_items: Seq<u16>, pool: Seq<u16>) -> bool {
    &&& new_items.len() == old_items.len()
    &&& forall|k: int| 0 <= k < old_items.len() ==> (#[trigger] old_items[k] == 0 <==> new_items[k] == 0)
    &&& forall|k: int| 0 <= k < old_items.len() && old_items[k] != 0 ==> pool.contains(#[trigger] new_items[k])
    &&& forall|i: int, j: int|
        0 <= i < j < old_items.len() && no_blank_between(old_items, i, j) ==> #[trigger] new_items[i]
            != #[trigger] new_items[j]
}

/// Replaces every item of the existing shop lists by a random item of the
/// pool, keeping the blank items that close the lists; no list gets the
/// same item twice.
/// The item at place `k` takes draw `k` (blank items leave theirs
/// unused).
pub fn randomize_existing_with_draws(shop_items: &mut Vec<u16>, draws: &Vec<u64>, shoppable: &Vec<u16>)
    requires
        shoppable@.no_duplicates(),
        !shoppable@.contains(0),
        runs_fit(old(shop_items)@, shoppable.len() as int),
        draws.len() == old(shop_items).len(),
    ensures
        items_replaced(old(shop_items)@, final(shop_items)@, shoppable@),
        existing_drawn(old(shop_items)@, final(shop_items)@, shoppable@, draws@),
{
    let mut pool = copy_vec(shoppable);
    proof {
        reveal(drawn_upto);
        assert(draws@.subrange(0, 0) =~= Seq::<u64>::empty());
    }
    let ghost mut start: int = 0;
    let len = shop_items.len();
    let mut idx: usize = 0;
    while idx < len
        invariant
            len == shop_items.len() == old(shop_items).len(),
            shoppable@.no_duplicates(),
            !shoppable@.contains(0),
            runs_fit(old(shop_items)@, shoppable.len() as int),
            0 <= start <= idx <= len,
            start > 0 ==> old(shop_items)@[start - 1] == 0,
            no_blank_between(old(shop_items)@, start, idx - 1),
            pool@.no_duplicates(),
            pool.len() == shoppable.len() - (idx - start),
            forall|y: u16| #[trigger] pool@.contains(y) ==> shoppable@.contains(y),
            forall|k: int| start <= k < idx ==> !pool@.contains(#[trigger] shop_items@[k]),
            forall|k: int| idx <= k < len ==> #[trigger] shop_items@[k] == old(shop_items)@[k],
            forall|k: int| 0 <= k < idx ==> (#[trigger] old(shop_items)@[k] == 0 <==> shop_items@[k] == 0),
            forall|k: int| 0 <= k < idx && old(shop_items)@[k] != 0 ==> shoppable@.contains(#[trigger] shop_items@[k]),
            forall|i: int, j: int|
                0 <= i < j < idx && no_blank_between(old(shop_items)@, i, j) ==> #[trigger] shop_items@[i]
                    != #[trigger] shop_items@[j],
            draws.len() == len,
            start == run_start(old(shop_items)@, idx as int),
            pool@ == picked(shoppable@, draws@.subrange(start, idx as int)).1,
            drawn_upto(old(shop_items)@, shop_items@, shoppable@, draws@, start, idx as int),
        decreases len - idx,
    {
        let ghost before = shop_items@;
        if shop_items[idx] == 0 {
            pool = copy_vec(shoppable);
            proof {
                assert(run_start(old(shop_items)@, idx + 1) == idx + 1);
                lemma_existing_blank(old(shop_items)@, shop_items@, shoppable@, draws@, start, idx as int);
                start = idx + 1;
                assert(draws@.subrange(start, start) =~= Seq::<u64>::empty());
                assert forall|i: int, j: int|
                    0 <= i < j < idx + 1 && no_blank_between(old(shop_items)@, i, j) implies #[trigger] shop_items@[i]
                        != #[trigger] shop_items@[j] by {
                    if j == idx {
                        assert(old(shop_items)@[j] == 0);
                    }
                }
            }
        } else {
            proof {
                assert(no_blank_between(old(shop_items)@, start, idx as int));
                assert(idx - start < shoppable.len());
            }
            let d = draws[idx];
            let item = take_drawn(&mut pool, d);
            shop_items.set(idx, item);
            proof {
                lemma_existing_step(old(shop_items)@, before, shop_items@, shoppable@, draws@, start, idx as int);
            }
            proof {
                assert forall|k: int| start <= k < idx + 1 implies !pool@.contains(#[trigger] shop_items@[k]) by {
                    if k < idx {
                        assert(shop_items@[k] == before[k]);
                    }
                }
                assert forall|i: int, j: int|
                    0 <= i < j < idx + 1 && no_blank_between(old(shop_items)@, i, j) implies #[trigger] shop_items@[i]
                        != #[trigger] shop_items@[j] by {
                    if j == idx {
                        assert(shop_items@[i] == before[i]);
                        if i < start {
                            assert(old(shop_items)@[start - 1] == 0);
                        } else {
                            assert(!pool@.contains(before[i]));
                        }
                    }
                }
            }
        }
        idx += 1;
    }
    proof {
        lemma_existing_done(old(shop_items)@, shop_items@, shoppable@, draws@, start, len as int);
    }
}

/// Replaces every item of the existing shop lists by a random item of the
/// pool, as `randomize_existing_with_draws` does with one `next_u64` draw
/// for every item that is not blank, in order.
pub fn randomize_existing(shop_items: &mut Vec<u16>, rng: &mut Xoshiro256StarStar, shoppable: &Vec<u16>)
    requires
        shoppable@.no_duplicates(),
        !shoppable@.contains(0),
        runs_fit(old(shop_items)@, shoppable.len() as int),
    ensures
        items_replaced(old(shop_items)@, final(shop_items)@, shoppable@),
        exists|draws: Seq<u64>|
            #![trigger existing_drawn(old(shop_items)@, final(shop_items)@, shoppable@, draws)]
            draws.len() == old(shop_items).len() && existing_drawn(old(shop_items)@, final(shop_items)@, shoppable@, draws),
{
    let mut draws: Vec<u64> = Vec::new();
    let mut k: usize = 0;
    while k < shop_items.len()
        invariant
            k <= shop_items.len(),
            draws.len() == k,
        decreases shop_items.len() - k,
    {
        if shop_items[k] != 0 {
            draws.push(next_u64(rng));
        } else {
            draws.push(0);
        }
        k += 1;
    }
    randomize_existing_with_draws(shop_items, &draws, shoppable);
}

/// The items up to place `idx` were drawn with the given draws: those of
/// the current run, from `start`, are the ones `picked` takes so far, and
/// every earlier item that is not blank is as `existing_drawn` says.
#[verifier::opaque]
pub open spec fn drawn_upto(
    old_items: Seq<u16>,
    new_items: Seq<u16>,
    pool: Seq<u16>,
    draws: Seq<u64>,
    start: int,
    idx: int,
) -> bool {
    &&& picked(pool, draws.subrange(start, idx)).0.len() == idx - start
    &&& forall|k: int| start <= k < idx ==> #[trigger] new_items[k] == picked(pool, draws.subrange(start, idx)).0[k - start]
    &&& forall|k: int| 0 <= k < idx && old_items[k] != 0 ==> #[trigger] new_items[k] == picked(
        pool,
        draws.subrange(run_start(old_items, k), k + 1),
    ).0[k - run_start(old_items, k)]
}

/// Drawing the item at place `idx`, within the run that starts at
/// `start`, keeps what the items drawn so far are.
proof fn lemma_existing_step(
    old_items: Seq<u16>,
    before: Seq<u16>,
    after: Seq<u16>,
    pool: Seq<u16>,
    draws: Seq<u64>,
    start: int,
    idx: int,
)
    requires
        0 <= start <= idx < old_items.len() == before.len() == draws.len(),
        old_items[idx] != 0,
        start == run_start(old_items, idx),
        picked(pool, draws.subrange(start, idx)).1.len() > 0,
        after == before.update(
            idx,
            picked(pool, draws.subrange(start, idx)).1[(draws[idx] as int) % (picked(
                pool,
                draws.subrange(start, idx),
            ).1.len() as int)],
        ),
        drawn_upto(old_items, before, pool, draws, start, idx),
    ensures
        run_start(old_items, idx + 1) == start,
        picked(pool, draws.subrange(start, idx + 1)).1 == picked(pool, draws.subrange(start, idx)).1.remove(
            (draws[idx] as int) % (picked(pool, draws.subrange(start, idx)).1.len() as int),
        ),
        drawn_upto(old_items, after, pool, draws, start, idx + 1),
{
    reveal(drawn_upto);
    let ds = draws.subrange(start, idx);
    let d = draws[idx];
    lemma_picked_push(pool, ds, d);
    assert(draws.subrange(start, idx + 1) =~= ds.push(d));
    assert forall|k: int| start <= k < idx + 1 implies #[trigger] after[k] == picked(pool, draws.subrange(start, idx + 1)).0[k
        - start] by {
        if k < idx {
            assert(after[k] == before[k]);
        }
    }
    assert forall|k: int| 0 <= k < idx + 1 && old_items[k] != 0 implies #[trigger] after[k] == picked(
        pool,
        draws.subrange(run_start(old_items, k), k + 1),
    ).0[k - run_start(old_items, k)] by {
        if k < idx {
            assert(after[k] == before[k]);
        }
    }
}

/// A blank item closes the run: a new one starts after it.
proof fn lemma_existing_blank(old_items: Seq<u16>, items: Seq<u16>, pool: Seq<u16>, draws: Seq<u64>, start: int, idx: int)
    requires
        0 <= start <= idx < old_items.len() == items.len() == draws.len(),
        old_items[idx] == 0,
        drawn_upto(old_items, items, pool, draws, start, idx),
    ensures
        drawn_upto(old_items, items, pool, draws, idx + 1, idx + 1),
{
    reveal(drawn_upto);
    assert(draws.subrange(idx + 1, idx + 1) =~= Seq::<u64>::empty());
}

/// When all places are done, the items are as `existing_drawn` says.
proof fn lemma_existing_done(old_items: Seq<u16>, items: Seq<u16>, pool: Seq<u16>, draws: Seq<u64>, start: int, len: int)
    requires
        len == old_items.len(),
        drawn_upto(old_items, items, pool, draws, start, len),
    ensures
        existing_drawn(old_items, items, pool, draws),
{
    reveal(drawn_upto);
}

/// Where the run of items that `k` belongs to starts: after the blank item
/// before it, or at the start.
pub open spec fn run_start(items: Seq<u16>, k: int) -> int
    decreases k,
{
    if k <= 0 {
        0
    } else if items[k - 1] == 0 {
        k
    } else {
        run_start(items, k - 1)
    }
}

/// The items were replaced with the given draws, one for each place: the
/// pool starts afresh after every blank item, and each item that is not
/// blank is the next that its draw takes from what is left (`picked`).
pub open spec fn existing_drawn(old_items: Seq<u16>, new_items: Seq<u16>, pool: Seq<u16>, draws: Seq<u64>) -> bool {
    forall|k: int|
        0 <= k < old_items.len() && old_items[k] != 0 ==> #[trigger] new_items[k] == picked(
            pool,
            draws.subrange(run_start(old_items, k), k + 1),
        ).0[k - run_start(old_items, k)]
}

/// What `patch` does to the item data, the shops and their item lists.
pub open spec fn shops_patched(
    preset: Shops,
    pool: Seq<u16>,
    old_data: Seq<ItemShopData>,
    new_data: Seq<ItemShopData>,
    old_shops: Seq<Shop>,
    new_shops: Seq<Shop>,
    old_items: Seq<u16>,
    new_items: Seq<u16>,
) -> bool {
    &&& if preset.limit_shop_items_enabled {
        shops_limited(old_shops, new_shops, old_items, new_items, preset.limit_shop_items, pool)
    } else {
        new_shops == old_shops && items_replaced(old_items, new_items, pool)
    }
    &&& new_data.len() == old_data.len()
    &&& forall|i: int| 1 <= i < old_data.len() ==> #[trigger] new_data[i].buy_price == 2 * new_data[i].sell_price
    &&& forall|i: int|
        0 <= i < old_data.len() ==> {
            &&& (#[trigger] new_data[i]).unk_ptr == old_data[i].unk_ptr
            &&& new_data[i].unk == old_data[i].unk
            &&& if preset.sell_price && gets_new_price(old_data, preset.keep_tnt, i) {
                preset.min_sell_price <= new_data[i].sell_price <= preset.max_sell_price
            } else {
                new_data[i].sell_price == old_data[i].sell_price
            }
        }
    &&& old_data.len() > 0 ==> new_data[0] == old_data[0]
}

/// The shop settings can be carried out on these records (`patch`'s
/// requirements): prices that fit, shop lists that fit the item lists
/// and addresses, and enough shoppable items.
pub open spec fn shops_ready(preset: Shops, data: Seq<ItemShopData>, shops: Seq<Shop>, shop_items: Seq<u16>) -> bool {
    &&& data.len() <= 0x10000
    &&& 0 <= preset.min_sell_price <= preset.max_sell_price <= 0x7fff
    &&& forall|i: int|
        1 <= i < data.len() && !(preset.sell_price && gets_new_price(data, preset.keep_tnt, i)) ==> (#[trigger] data[i]).sell_price
            <= 0x7fff
    &&& preset.limit_shop_items_enabled ==> {
        &&& shop_items.len() >= shops.len() * (preset.limit_shop_items + 1)
        &&& shops.len() > 0 ==> shops[0].items.value + shops.len() * (preset.limit_shop_items + 1) * 2 <= u32::MAX
        &&& shoppable_count(data, preset.items_only, data.len() as int) >= preset.limit_shop_items
    }
    &&& !preset.limit_shop_items_enabled ==> runs_fit(shop_items, shoppable_count(data, preset.items_only, data.len() as int) as int)
}

/// What the shops step does when it goes through: nothing when `on` is
/// off, else what `patch` promises.
pub open spec fn shops_step(
    on: bool,
    preset: Shops,
    old_data: Seq<ItemShopData>,
    new_data: Seq<ItemShopData>,
    old_shops: Seq<Shop>,
    new_shops: Seq<Shop>,
    old_items: Seq<u16>,
    new_items: Seq<u16>,
) -> bool {
    if !on {
        new_data == old_data && new_shops == old_shops && new_items == old_items
    } else {
        exists|pool: Seq<u16>|
            (forall|x: u16| #[trigger] pool.contains(x) <==> is_shoppable(old_data, preset.items_only, x as int))
            && shops_patched(preset, pool, old_data, new_data, old_shops, new_shops, old_items, new_items)
    }
}

/// Randomizes the shops: their items (a fixed number per shop, or in place
/// of the existing ones), the sell prices if asked for, and then sets every
/// buy price to twice the sell price.
pub fn patch(
    preset: &Shops,
    data: &mut Vec<ItemShopData>,
    shops: &mut Vec<Shop>,
    shop_items: &mut Vec<u16>,
    rng: &mut Xoshiro256StarStar,
) -> (res: Result<(), ShopsError>)
    requires
        old(data).len() <= 0x10000,
        0 <= preset.min_sell_price <= preset.max_sell_price <= 0x7fff,
        forall|i: int|
            1 <= i < old(data).len() && !(preset.sell_price && gets_new_price(old(data)@, preset.keep_tnt, i))
                ==> (#[trigger] old(data)@[i]).sell_price <= 0x7fff,
        preset.limit_shop_items_enabled ==> {
            &&& old(shop_items).len() >= old(shops).len() * (preset.limit_shop_items + 1)
            &&& old(shops).len() > 0 ==> old(shops)@[0].items.value + old(shops).len() * (
            preset.limit_shop_items + 1) * 2 <= u32::MAX
            &&& shoppable_count(old(data)@, preset.items_only, old(data).len() as int)
            >= preset.limit_shop_items
        },
        !preset.limit_shop_items_enabled ==> runs_fit(
            old(shop_items)@,
            shoppable_count(old(data)@, preset.items_only, old(data).len() as int) as int,
        ),
    ensures
        res is Err <==> (preset.limit_shop_items_enabled && old(shops).len() == 0),
        res is Err ==> final(data)@ == old(data)@ && final(shops)@ == old(shops)@ && final(shop_items)@
            == old(shop_items)@,
        res is Ok ==> exists|pool: Seq<u16>|
            (forall|x: u16| #[trigger] pool.contains(x) <==> is_shoppable(old(data)@, preset.items_only, x as int))
            && shops_patched(
                *preset,
                pool,
                old(data)@,
                final(data)@,
                old(shops)@,
                final(shops)@,
                old(shop_items)@,
                final(shop_items)@,
            ),
{
    let pool = shoppable(data, preset.items_only);
    proof {
        assert(pool@.no_duplicates()) by {
            assert forall|a: int, b: int| 0 <= a < b < pool@.len() implies pool@[a] != pool@[b] by {
                assert(pool@[a] < pool@[b]);
            }
        }
    }
    if preset.limit_shop_items_enabled {
        randomize_limited(preset.limit_shop_items, shops, shop_items, rng, &pool)?;
    } else {
        randomize_existing(shop_items, rng, &pool);
    }
    assert(!pool@.contains(0));
    if preset.sell_price {
        randomize_sell_price(preset, data, rng);
    }
    let ghost priced = data@;
    let len = data.len();
    assert(sell_prices_randomized(old(data)@, priced, *preset) || priced == old(data)@);
    assert forall|k: int| 1 <= k < len implies (#[trigger] priced[k]).sell_price <= 0x7fff by {
        if preset.sell_price {
            if gets_new_price(old(data)@, preset.keep_tnt, k) {
                assert(priced[k].sell_price <= preset.max_sell_price);
            } else {
                assert(priced[k].sell_price == old(data)@[k].sell_price);
            }
        }
    }
    let mut i: usize = 1;
    while i < len
        invariant
            len == data.len() == priced.len(),
            1 <= i && (i <= len || i == 1),
            forall|k: int| 1 <= k < len ==> (#[trigger] priced[k]).sell_price <= 0x7fff,
            forall|k: int|
                0 <= k < len ==> {
                    &&& (#[trigger] data@[k]).unk_ptr == priced[k].unk_ptr
                    &&& data@[k].unk == priced[k].unk
                    &&& data@[k].sell_price == priced[k].sell_price
                },
            forall|k: int| 1 <= k < i ==> #[trigger] data@[k].buy_price == 2 * data@[k].sell_price,
            forall|k: int| i <= k < len || k == 0 ==> #[trigger] data@[k] == priced[k],
        decreases len - i,
    {
        let mut item = data[i];
        item.buy_price = 2 * item.sell_price;
        data.set(i, item);
        i += 1;
    }
    assert forall|k: int|
        0 <= k < old(data).len() implies {
            &&& (#[trigger] data@[k]).unk_ptr == old(data)@[k].unk_ptr
            &&& data@[k].unk == old(data)@[k].unk
            &&& if preset.sell_price && gets_new_price(old(data)@, preset.keep_tnt, k) {
                preset.min_sell_price <= data@[k].sell_price <= preset.max_sell_price
            } else {
                data@[k].sell_price == old(data)@[k].sell_price
            }
        } by {
        assert(data@[k].sell_price == priced[k].sell_price);
    }
    assert(shops_patched(*preset, pool@, old(data)@, data@, old(shops)@, shops@, old(shop_items)@, shop_items@));
    Ok(())
}

} // verus!
