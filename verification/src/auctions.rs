//! The Cargo Tower auctions: their items and their prices.

use crate::json::ShopItems;
use crate::rng::{next_u32, next_u64};
use crate::shops::{is_shoppable, shoppable, shoppable_count};
use crate::structs::ItemShopData;
use crate::util::{lemma_picked_push, picked, strictly_increasing, take_drawn};
use rand_xoshiro::Xoshiro256StarStar;
use vstd::prelude::*;

verus! {

/// Number of auctions: fifteen ordinary ones and Oinkmon's.
pub const AUCTION_COUNT: usize = 16;

/// The auction Oinkmon holds.
pub const OINKMON_AUCTION_IDX: usize = 15;

/// Number of Bits checks whose amounts the auctions' prices follow.
pub const BITS_CHECK_COUNT: usize = 10;

/// The five bids of every auction in the original game.
pub const DEFAULT_AUCTION_PRICES: [[u32; 5]; 16] = [
    [400, 500, 600, 700, 800],
    [400, 500, 600, 700, 800],
    [800, 1100, 1300, 1500, 1600],
    [800, 1100, 1300, 1500, 1600],
    [1600, 2000, 2300, 2600, 2700],
    [1600, 2000, 2300, 2600, 2700],
    [2700, 3100, 3500, 3900, 4000],
    [2700, 3100, 3500, 3900, 4000],
    [4000, 4500, 5500, 5900, 6000],
    [4000, 4500, 5500, 5900, 6000],
    [7000, 8000, 8300, 8600, 8700],
    [7000, 8000, 8300, 8600, 8700],
    [10000, 10900, 11200, 11400, 11500],
    [16000, 16900, 17000, 17400, 17500],
    [23000, 23500, 23800, 23900, 24000],
    [30000, 31000, 31500, 31900, 32000],
];

/// Auction settings.
#[derive(Clone, Copy, Debug)]
pub struct Auction {
    pub enabled: bool,
    pub auction_items: bool,
    pub auction_items_pool: ShopItems,
    pub auction_values: bool,
    pub auction_values_min: u32,
    pub auction_values_max: u32,
}

/// The item an auction sells.
#[derive(Clone, Copy, Debug, PartialEq, Eq, Structural)]
pub struct AuctionItem {
    pub item: u16,
}

/// The Bits check that auction `i` follows: two auctions per check for the
/// first twelve, one each after.
pub open spec fn check_of(i: int) -> int {
    if i < 12 {
        i / 2
    } else {
        i - 6
    }
}

/// Bid `j` of an auction whose check is `amount`: from half the amount, up
/// by an eighth of it per bid.
pub open spec fn full_price(amount: u32, j: int) -> int {
    amount * (500 + j * 125) / 1000
}

/// The bids of every auction, following the Bits checks.
pub fn full_prices(bits_checks: &Vec<u32>) -> (r: Vec<[u32; 5]>)
    requires
        bits_checks.len() >= BITS_CHECK_COUNT,
        forall|c: int| 0 <= c < BITS_CHECK_COUNT ==> #[trigger] bits_checks@[c] * 1000 <= u32::MAX,
    ensures
        r.len() == AUCTION_COUNT,
        forall|i: int, j: int|
            0 <= i < AUCTION_COUNT && 0 <= j < 5 ==> #[trigger] r@[i]@[j] == full_price(bits_checks@[check_of(i)], j),
        forall|i: int, j: int|
            0 <= i < 12 && 0 <= j < 5 ==> #[trigger] r@[i]@[j] == bits_checks@[i / 2] * (500 + 125 * j) / 1000,
        forall|i: int, j: int|
            12 <= i < 16 && 0 <= j < 5 ==> #[trigger] r@[i]@[j] == bits_checks@[i - 6] * (500 + 125 * j) / 1000,
{
    let mut result: Vec<[u32; 5]> = Vec::new();
    let mut i: usize = 0;
    while i < AUCTION_COUNT
        invariant
            i <= AUCTION_COUNT,
            result.len() == i,
            bits_checks.len() >= BITS_CHECK_COUNT,
            forall|c: int| 0 <= c < BITS_CHECK_COUNT ==> #[trigger] bits_checks@[c] * 1000 <= u32::MAX,
            forall|q: int, j: int|
                0 <= q < i && 0 <= j < 5 ==> #[trigger] result@[q]@[j] == full_price(bits_checks@[check_of(q)], j),
        decreases AUCTION_COUNT - i,
    {
        let check = if i < 12 {
            i / 2
        } else {
            i - 6
        };
        let amount = bits_checks[check];
        assert(amount * 1000 <= u32::MAX);
        let row: [u32; 5] = [
            amount * 500 / 1000,
            amount * 625 / 1000,
            amount * 750 / 1000,
            amount * 875 / 1000,
            amount * 1000 / 1000,
        ];
        result.push(row);
        proof {
            assert forall|q: int, j: int|
                0 <= q < i + 1 && 0 <= j < 5 implies #[trigger] result@[q]@[j] == full_price(bits_checks@[check_of(q)], j) by {
                if q == i {
                    assert(check == check_of(q));
                    assert(row@[j] == full_price(amount, j));
                }
            }
        }
        i += 1;
    }
    proof {
        lemma_prices_follow_checks(bits_checks@, result@);
    }
    result
}

/// The first twelve auctions follow the Bits checks two by two, the last
/// four the checks 6 to 9 one each; bid `j` is the check's amount times
/// 500 + 125 j thousandths, rounded down.
pub proof fn lemma_prices_follow_checks(bits_checks: Seq<u32>, r: Seq<[u32; 5]>)
    requires
        bits_checks.len() >= BITS_CHECK_COUNT,
        r.len() == AUCTION_COUNT,
        forall|i: int, j: int|
            0 <= i < AUCTION_COUNT && 0 <= j < 5 ==> #[trigger] r[i]@[j] == full_price(bits_checks[check_of(i)], j),
    ensures
        forall|i: int, j: int| 0 <= i < 12 && 0 <= j < 5 ==> #[trigger] r[i]@[j] == bits_checks[i / 2] * (500 + 125 * j) / 1000,
        forall|i: int, j: int| 12 <= i < 16 && 0 <= j < 5 ==> #[trigger] r[i]@[j] == bits_checks[i - 6] * (500 + 125 * j) / 1000,
{
    assert forall|i: int, j: int| 0 <= i < 12 && 0 <= j < 5 implies #[trigger] r[i]@[j] == bits_checks[i / 2] * (500 + 125 * j) / 1000 by {
        assert(r[i]@[j] == full_price(bits_checks[check_of(i)], j));
        assert(j * 125 == 125 * j);
    }
    assert forall|i: int, j: int| 12 <= i < 16 && 0 <= j < 5 implies #[trigger] r[i]@[j] == bits_checks[i - 6] * (500 + 125 * j) / 1000 by {
        assert(r[i]@[j] == full_price(bits_checks[check_of(i)], j));
        assert(j * 125 == 125 * j);
    }
}

/// The amount of a Bits check that draw `d` gives: the preset's minimum
/// plus the draw modulo the size of the preset's range.
pub open spec fn check_of_draw(preset: Auction, d: u32) -> int {
    preset.auction_values_min + (d as int) % (preset.auction_values_max - preset.auction_values_min + 1)
}

/// The Bits checks after drawing: check `i` takes `check_of_draw` of draw
/// `i` and gives the same amount; the checks past the first
/// `BITS_CHECK_COUNT` stay as they are.
pub open spec fn checks_drawn(
    preset: Auction,
    old_checks: Seq<u32>,
    new_checks: Seq<u32>,
    old_subtracts: Seq<u32>,
    new_subtracts: Seq<u32>,
    draws: Seq<u32>,
) -> bool {
    &&& new_checks.len() == old_checks.len()
    &&& new_subtracts.len() == old_subtracts.len()
    &&& forall|i: int|
        0 <= i < BITS_CHECK_COUNT ==> #[trigger] new_checks[i] == check_of_draw(preset, draws[i])
            && new_subtracts[i] == new_checks[i]
    &&& forall|i: int| BITS_CHECK_COUNT <= i < old_checks.len() ==> #[trigger] new_checks[i] == old_checks[i]
    &&& forall|i: int| BITS_CHECK_COUNT <= i < old_subtracts.len() ==> #[trigger] new_subtracts[i] == old_subtracts[i]
}

/// Sets the amount of every Bits check from the given draws, one a check:
/// the preset's minimum plus the draw modulo the size of the range. The
/// amount a check takes and the amount it gives are the same.
pub fn auction_values_with_draws(
    preset: &Auction,
    bits_checks: &mut Vec<u32>,
    bits_subtracts: &mut Vec<u32>,
    draws: &Vec<u32>,
)
    requires
        preset.auction_values_min <= preset.auction_values_max < u32::MAX,
        old(bits_checks).len() >= BITS_CHECK_COUNT,
        old(bits_subtracts).len() >= BITS_CHECK_COUNT,
        draws.len() == BITS_CHECK_COUNT,
    ensures
        checks_drawn(*preset, old(bits_checks)@, final(bits_checks)@, old(bits_subtracts)@, final(bits_subtracts)@, draws@),
{
    let mut i: usize = 0;
    while i < BITS_CHECK_COUNT
        invariant
            i <= BITS_CHECK_COUNT,
            draws.len() == BITS_CHECK_COUNT,
            preset.auction_values_min <= preset.auction_values_max < u32::MAX,
            bits_checks.len() == old(bits_checks).len() >= BITS_CHECK_COUNT,
            bits_subtracts.len() == old(bits_subtracts).len() >= BITS_CHECK_COUNT,
            forall|q: int|
                0 <= q < i ==> #[trigger] bits_checks@[q] == check_of_draw(*preset, draws@[q]) && bits_subtracts@[q]
                    == bits_checks@[q],
            forall|q: int| i <= q < bits_checks.len() ==> #[trigger] bits_checks@[q] == old(bits_checks)@[q],
            forall|q: int| i <= q < bits_subtracts.len() ==> #[trigger] bits_subtracts@[q] == old(bits_subtracts)@[q],
        decreases BITS_CHECK_COUNT - i,
    {
        let range = preset.auction_values_max - preset.auction_values_min + 1;
        let new_value = preset.auction_values_min + draws[i] % range;
        bits_checks.set(i, new_value);
        bits_subtracts.set(i, new_value);
        i += 1;
    }
}

/// Draws the amount of every Bits check between the preset's bounds: one
/// `next_u32` draw a check, taken to the range (`auction_values_with_draws`);
/// the amount a check takes and the amount it gives are the same.
pub fn auction_values(
    preset: &Auction,
    bits_checks: &mut Vec<u32>,
    bits_subtracts: &mut Vec<u32>,
    rng: &mut Xoshiro256StarStar,
)
    requires
        preset.auction_values_min <= preset.auction_values_max < u32::MAX,
        old(bits_checks).len() >= BITS_CHECK_COUNT,
        old(bits_subtracts).len() >= BITS_CHECK_COUNT,
    ensures
        forall|i: int|
            0 <= i < BITS_CHECK_COUNT ==> preset.auction_values_min <= #[trigger] final(bits_checks)@[i]
                <= preset.auction_values_max,
        exists|draws: Seq<u32>|
            #![trigger checks_drawn(*preset, old(bits_checks)@, final(bits_checks)@, old(bits_subtracts)@, final(bits_subtracts)@, draws)]
            draws.len() == BITS_CHECK_COUNT && checks_drawn(
                *preset,
                old(bits_checks)@,
                final(bits_checks)@,
                old(bits_subtracts)@,
                final(bits_subtracts)@,
                draws,
            ),
{
    let mut draws: Vec<u32> = Vec::new();
    let mut i: usize = 0;
    while i < BITS_CHECK_COUNT
        invariant
            i <= BITS_CHECK_COUNT,
            draws.len() == i,
        decreases BITS_CHECK_COUNT - i,
    {
        draws.push(next_u32(rng));
        i += 1;
    }
    auction_values_with_draws(preset, bits_checks, bits_subtracts, &draws);
}

/// Gives every auction an item drawn from the shoppable items, no item
/// twice.
/// Auction `i` takes draw `i`.
pub fn auction_items_with_draws(
    preset: &Auction,
    auctions: &mut Vec<AuctionItem>,
    data: &Vec<ItemShopData>,
    draws: &Vec<u64>,
)
    requires
        data.len() <= 0x10000,
        old(auctions).len() <= shoppable_count(data@, preset.auction_items_pool, data.len() as int),
        draws.len() == old(auctions).len(),
    ensures
        final(auctions).len() == old(auctions).len(),
        forall|i: int|
            0 <= i < old(auctions).len() ==> is_shoppable(data@, preset.auction_items_pool, (#[trigger] final(auctions)@[i]).item as int),
        forall|i: int, j: int| 0 <= i < j < old(auctions).len() ==> (#[trigger] final(auctions)@[i]).item != (#[trigger] final(auctions)@[j]).item,
        auction_items_drawn(data@, preset.auction_items_pool, final(auctions)@, draws@),
{
    let mut pool = shoppable(data, preset.auction_items_pool);
    proof {
        crate::util::lemma_increasing_no_duplicates(pool@);
    }
    let ghost pool0 = pool@;
    assert(draws@.take(0) =~= Seq::<u64>::empty());
    let mut i: usize = 0;
    while i < auctions.len()
        invariant
            draws.len() == auctions.len(),
            strictly_increasing(pool0),
            forall|x: u16| #[trigger] pool0.contains(x) <==> is_shoppable(data@, preset.auction_items_pool, x as int),
            pool@ == picked(pool0, draws@.take(i as int)).1,
            picked(pool0, draws@.take(i as int)).0.len() == i,
            forall|q: int| 0 <= q < i ==> (#[trigger] auctions@[q]).item == picked(pool0, draws@.take(i as int)).0[q],
            i <= auctions.len() == old(auctions).len(),
            pool.len() + i >= old(auctions).len(),
            pool@.no_duplicates(),
            forall|x: u16| #[trigger] pool@.contains(x) ==> is_shoppable(data@, preset.auction_items_pool, x as int),
            forall|q: int| 0 <= q < i ==> is_shoppable(data@, preset.auction_items_pool, (#[trigger] auctions@[q]).item as int),
            forall|q: int| 0 <= q < i ==> !pool@.contains((#[trigger] auctions@[q]).item),
            forall|a: int, b: int| 0 <= a < b < i ==> (#[trigger] auctions@[a]).item != (#[trigger] auctions@[b]).item,
        decreases auctions.len() - i,
    {
        let ghost before = auctions@;
        let ghost p_before = pool@;
        let d = draws[i];
        let x = take_drawn(&mut pool, d);
        auctions.set(i, AuctionItem { item: x });
        proof {
            lemma_picked_push(pool0, draws@.take(i as int), d);
            assert(draws@.take(i + 1) =~= draws@.take(i as int).push(d));
            assert forall|q: int| 0 <= q < i + 1 implies (#[trigger] auctions@[q]).item == picked(
                pool0,
                draws@.take(i + 1),
            ).0[q] by {
                if q < i {
                    assert(auctions@[q] == before[q]);
                }
            }
            assert forall|q: int| 0 <= q < i + 1 implies !pool@.contains((#[trigger] auctions@[q]).item) by {
                if q < i {
                    assert(auctions@[q] == before[q]);
                    assert(!p_before.contains(before[q].item));
                }
            }
            assert forall|a: int, b: int| 0 <= a < b < i + 1 implies (#[trigger] auctions@[a]).item != (#[trigger] auctions@[b]).item by {
                if b == i {
                    assert(auctions@[a] == before[a]);
                    assert(!p_before.contains(before[a].item));
                } else {
                    assert(auctions@[a] == before[a]);
                    assert(auctions@[b] == before[b]);
                }
            }
        }
        i += 1;
    }
    proof {
        assert(draws@.take(i as int) =~= draws@);
        assert(strictly_increasing(pool0) && (forall|x: u16| #[trigger] pool0.contains(x) <==> is_shoppable(
            data@,
            preset.auction_items_pool,
            x as int,
        )) && forall|q: int| 0 <= q < auctions.len() ==> (#[trigger] auctions@[q]).item == picked(pool0, draws@).0[q]);
    }
}

/// The auctions' items were drawn with the given draws, one an auction:
/// auction `i` gets the `i`-th item that the draws take from the pool of
/// the shoppable items, in increasing order (`picked`).
pub open spec fn auction_items_drawn(
    data: Seq<ItemShopData>,
    pool_kind: ShopItems,
    auctions: Seq<AuctionItem>,
    draws: Seq<u64>,
) -> bool {
    exists|pool: Seq<u16>|
        #![trigger picked(pool, draws)]
        {
            &&& strictly_increasing(pool)
            &&& forall|x: u16| #[trigger] pool.contains(x) <==> is_shoppable(data, pool_kind, x as int)
            &&& forall|q: int| 0 <= q < auctions.len() ==> (#[trigger] auctions[q]).item == picked(pool, draws).0[q]
        }
}

/// Gives every auction an item drawn from the shoppable items, no item
/// twice, as `auction_items_with_draws` does with one `next_u64` draw an
/// auction, in order.
pub fn auction_items(
    preset: &Auction,
    auctions: &mut Vec<AuctionItem>,
    data: &Vec<ItemShopData>,
    rng: &mut Xoshiro256StarStar,
)
    requires
        data.len() <= 0x10000,
        old(auctions).len() <= shoppable_count(data@, preset.auction_items_pool, data.len() as int),
    ensures
        final(auctions).len() == old(auctions).len(),
        forall|i: int|
            0 <= i < old(auctions).len() ==> is_shoppable(data@, preset.auction_items_pool, (#[trigger] final(auctions)@[i]).item as int),
        forall|i: int, j: int| 0 <= i < j < old(auctions).len() ==> (#[trigger] final(auctions)@[i]).item != (#[trigger] final(auctions)@[j]).item,
        exists|draws: Seq<u64>|
            #![trigger auction_items_drawn(data@, preset.auction_items_pool, final(auctions)@, draws)]
            draws.len() == old(auctions).len() && auction_items_drawn(data@, preset.auction_items_pool, final(auctions)@, draws),
{
    let mut draws: Vec<u64> = Vec::new();
    let mut i: usize = 0;
    while i < auctions.len()
        invariant
            i <= auctions.len(),
            draws.len() == i,
        decreases auctions.len() - i,
    {
        draws.push(next_u64(rng));
        i += 1;
    }
    auction_items_with_draws(preset, auctions, data, &draws);
}

/// The bids the auction texts show: those that follow the Bits checks if
/// their amounts were drawn, else the game's own.
pub fn auction_prices(preset: &Auction, bits_checks: &Vec<u32>) -> (r: Vec<[u32; 5]>)
    requires
        preset.auction_values ==> bits_checks.len() >= BITS_CHECK_COUNT,
        preset.auction_values ==> forall|c: int| 0 <= c < BITS_CHECK_COUNT ==> #[trigger] bits_checks@[c] * 1000 <= u32::MAX,
    ensures
        r.len() == AUCTION_COUNT,
        forall|i: int, j: int|
            0 <= i < AUCTION_COUNT && 0 <= j < 5 ==> #[trigger] r@[i]@[j] == if preset.auction_values {
                full_price(bits_checks@[check_of(i)], j)
            } else {
                DEFAULT_AUCTION_PRICES@[i]@[j] as int
            },
        preset.auction_values ==> forall|i: int, j: int|
            12 <= i < 16 && 0 <= j < 5 ==> #[trigger] r@[i]@[j] == bits_checks@[i - 6] * (500 + 125 * j) / 1000,
        preset.auction_values ==> forall|i: int, j: int|
            0 <= i < 12 && 0 <= j < 5 ==> #[trigger] r@[i]@[j] == bits_checks@[i / 2] * (500 + 125 * j) / 1000,
{
    if preset.auction_values {
        full_prices(bits_checks)
    } else {
        let mut result: Vec<[u32; 5]> = Vec::new();
        let mut i: usize = 0;
        while i < AUCTION_COUNT
            invariant
                i <= AUCTION_COUNT,
                result.len() == i,
                forall|q: int| 0 <= q < i ==> #[trigger] result@[q] == DEFAULT_AUCTION_PRICES@[q],
            decreases AUCTION_COUNT - i,
        {
            result.push(DEFAULT_AUCTION_PRICES[i]);
            i += 1;
        }
        result
    }
}

/// Randomizes the auctions as the preset asks: their items, then the
/// amounts of the Bits checks that their prices follow.
pub fn patch(
    preset: &Auction,
    auctions: &mut Vec<AuctionItem>,
    data: &Vec<ItemShopData>,
    bits_checks: &mut Vec<u32>,
    bits_subtracts: &mut Vec<u32>,
    rng: &mut Xoshiro256StarStar,
)
    requires
        preset.auction_items ==> data.len() <= 0x10000,
        preset.auction_items ==> old(auctions).len() <= shoppable_count(
            data@,
            preset.auction_items_pool,
            data.len() as int,
        ),
        preset.auction_values ==> preset.auction_values_min <= preset.auction_values_max < u32::MAX,
        preset.auction_values ==> old(bits_checks).len() >= BITS_CHECK_COUNT,
        preset.auction_values ==> old(bits_subtracts).len() >= BITS_CHECK_COUNT,
    ensures
        final(auctions).len() == old(auctions).len(),
        !preset.auction_items ==> final(auctions)@ == old(auctions)@,
        preset.auction_items ==> forall|i: int|
            0 <= i < old(auctions).len() ==> is_shoppable(data@, preset.auction_items_pool, (#[trigger] final(auctions)@[i]).item as int),
        preset.auction_items ==> forall|i: int, j: int|
            0 <= i < j < old(auctions).len() ==> (#[trigger] final(auctions)@[i]).item != (#[trigger] final(auctions)@[j]).item,
        final(bits_checks).len() == old(bits_checks).len(),
        final(bits_subtracts).len() == old(bits_subtracts).len(),
        !preset.auction_values ==> final(bits_checks)@ == old(bits_checks)@ && final(bits_subtracts)@ == old(bits_subtracts)@,
        preset.auction_values ==> forall|i: int|
            0 <= i < BITS_CHECK_COUNT ==> preset.auction_values_min <= #[trigger] final(bits_checks)@[i]
                <= preset.auction_values_max && final(bits_subtracts)@[i] == final(bits_checks)@[i],
        preset.auction_values ==> forall|i: int|
            BITS_CHECK_COUNT <= i < old(bits_checks).len() ==> #[trigger] final(bits_checks)@[i] == old(bits_checks)@[i],
        preset.auction_values ==> forall|i: int|
            BITS_CHECK_COUNT <= i < old(bits_subtracts).len() ==> #[trigger] final(bits_subtracts)@[i] == old(bits_subtracts)@[i],
{
    if preset.auction_items {
        auction_items(preset, auctions, data, rng);
    }
    if preset.auction_values {
        auction_values(preset, bits_checks, bits_subtracts, rng);
    }
}

} // verus!
