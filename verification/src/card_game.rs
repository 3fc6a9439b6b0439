//! The card game: card prices, card shops and booster packs.

use crate::json::CardGame;
use crate::rng::next_u64;
use crate::util::{copy_vec, lemma_picked_push, picked, shuffle_draws, shuffle_with_draws, shuffled, take_drawn};
use rand_xoshiro::Xoshiro256StarStar;
use vstd::prelude::*;

verus! {

broadcast use vstd::seq_lib::group_to_multiset_ensures;

/// Number of cards: card ids run from 1 up to this number.
pub const CARD_COUNT: u16 = 314;

/// A card sold in the card shops, with its price.
#[derive(Debug, Clone, Copy)]
pub struct CardPricing {
    pub card_id: i16,
    pub pricing: i16,
}

/// The price that draw `d` gives: the preset's minimum plus the draw
/// modulo the size of the preset's range.
pub open spec fn card_price_of_draw(preset: CardGame, d: u64) -> int {
    preset.min_card_buy_price + (d as int) % (preset.max_card_buy_price - preset.min_card_buy_price + 1)
}

/// The cards are priced with the given draws, one a card, and keep their
/// ids.
pub open spec fn cards_priced(old_c: Seq<CardPricing>, new_c: Seq<CardPricing>, preset: CardGame, draws: Seq<u64>) -> bool {
    &&& new_c.len() == old_c.len()
    &&& forall|i: int| 0 <= i < old_c.len() ==> {
        &&& (#[trigger] new_c[i]).card_id == old_c[i].card_id
        &&& new_c[i].pricing == card_price_of_draw(preset, draws[i])
    }
}

/// Prices every card with its draw: the preset's minimum plus the draw
/// modulo the size of the range.
pub fn pricing_with_draws(preset: &CardGame, card_pricing: &mut Vec<CardPricing>, draws: &Vec<u64>)
    requires
        i16::MIN <= preset.min_card_buy_price <= preset.max_card_buy_price <= i16::MAX,
        draws.len() == old(card_pricing).len(),
    ensures
        cards_priced(old(card_pricing)@, final(card_pricing)@, *preset, draws@),
        forall|i: int|
            0 <= i < old(card_pricing).len() ==> preset.min_card_buy_price
                <= (#[trigger] final(card_pricing)@[i]).pricing <= preset.max_card_buy_price,
{
    let min_price = preset.min_card_buy_price;
    let range = preset.max_card_buy_price - min_price + 1;
    let mut i: usize = 0;
    while i < card_pricing.len()
        invariant
            i <= card_pricing.len() == old(card_pricing).len() == draws.len(),
            i16::MIN <= min_price == preset.min_card_buy_price <= preset.max_card_buy_price <= i16::MAX,
            range == preset.max_card_buy_price - min_price + 1,
            forall|k: int| 0 <= k < i ==> {
                &&& (#[trigger] card_pricing@[k]).card_id == old(card_pricing)@[k].card_id
                &&& card_pricing@[k].pricing == card_price_of_draw(*preset, draws@[k])
                &&& preset.min_card_buy_price <= card_pricing@[k].pricing <= preset.max_card_buy_price
            },
            forall|k: int| i <= k < card_pricing.len() ==> #[trigger] card_pricing@[k] == old(card_pricing)@[k],
        decreases card_pricing.len() - i,
    {
        let offset = (draws[i] % (range as u64)) as i64;
        card_pricing[i].pricing = (min_price + offset) as i16;
        i += 1;
    }
}

/// Gives every card a random price between the preset's bounds: one
/// `next_u64` draw a card, in order (`pricing_with_draws`).
pub fn pricing(preset: &CardGame, card_pricing: &mut Vec<CardPricing>, rng: &mut Xoshiro256StarStar)
    requires
        i16::MIN <= preset.min_card_buy_price <= preset.max_card_buy_price <= i16::MAX,
    ensures
        final(card_pricing).len() == old(card_pricing).len(),
        forall|i: int| 0 <= i < old(card_pricing).len() ==> {
            &&& (#[trigger] final(card_pricing)@[i]).card_id == old(card_pricing)@[i].card_id
            &&& preset.min_card_buy_price <= final(card_pricing)@[i].pricing <= preset.max_card_buy_price
        },
        exists|draws: Seq<u64>|
            #![trigger cards_priced(old(card_pricing)@, final(card_pricing)@, *preset, draws)]
            draws.len() == old(card_pricing).len() && cards_priced(old(card_pricing)@, final(card_pricing)@, *preset, draws),
{
    let mut draws: Vec<u64> = Vec::new();
    let mut i: usize = 0;
    while i < card_pricing.len()
        invariant
            i <= card_pricing.len(),
            draws.len() == i,
        decreases card_pricing.len() - i,
    {
        draws.push(next_u64(rng));
        i += 1;
    }
    pricing_with_draws(preset, card_pricing, &draws);
}

/// The card ids from 1 to `CARD_COUNT`.
fn all_cards() -> (pool: Vec<u16>)
    ensures
        pool.len() == CARD_COUNT,
        forall|k: int| 0 <= k < CARD_COUNT ==> #[trigger] pool@[k] == k + 1,
{
    let mut pool: Vec<u16> = Vec::new();
    let mut c: u16 = 1;
    while c <= CARD_COUNT
        invariant
            1 <= c <= CARD_COUNT + 1,
            pool.len() == c - 1,
            forall|k: int| 0 <= k < pool.len() ==> #[trigger] pool@[k] == k + 1,
        decreases CARD_COUNT + 1 - c,
    {
        pool.push(c);
        c += 1;
    }
    pool
}

/// The card ids form a sequence of different cards.
pub open spec fn valid_cards(s: Seq<u16>) -> bool {
    &&& s.no_duplicates()
    &&& forall|k: int| 0 <= k < s.len() ==> 1 <= #[trigger] s[k] <= CARD_COUNT
}

/// A permutation of valid cards is valid.
proof fn lemma_permuted_cards(a: Seq<u16>, b: Seq<u16>)
    requires
        valid_cards(a),
        a.to_multiset() == b.to_multiset(),
    ensures
        valid_cards(b),
{
    crate::parties::lemma_permutation_no_duplicates(a, b);
    assert forall|k: int| 0 <= k < b.len() implies 1 <= #[trigger] b[k] <= CARD_COUNT by {
        assert(b.to_multiset().count(b[k]) > 0);
        assert(a.contains(b[k]));
    }
}

/// The card ids of the priced cards.
pub open spec fn card_ids(p: Seq<CardPricing>) -> Seq<i16> {
    p.map_values(|c: CardPricing| c.card_id)
}

/// What `shop_items` does: the priced cards get different random card ids,
/// and every card shop sells six different ones of them.
pub open spec fn card_shops_stocked(
    old_pricing: Seq<CardPricing>,
    new_pricing: Seq<CardPricing>,
    shop_count: int,
    old_items: Seq<u16>,
    new_items: Seq<u16>,
) -> bool {
    let n = if old_pricing.len() < CARD_COUNT { old_pricing.len() as int } else { CARD_COUNT as int };
    &&& new_pricing.len() == old_pricing.len()
    &&& forall|i: int| 0 <= i < n ==> 1 <= (#[trigger] new_pricing[i]).card_id <= CARD_COUNT
    &&& forall|i: int, j: int| 0 <= i < j < n ==> (#[trigger] new_pricing[i]).card_id != (#[trigger] new_pricing[j]).card_id
    &&& forall|i: int| n <= i < old_pricing.len() ==> #[trigger] new_pricing[i] == old_pricing[i]
    &&& forall|i: int| 0 <= i < old_pricing.len() ==> (#[trigger] new_pricing[i]).pricing == old_pricing[i].pricing
    &&& new_items.len() == old_items.len()
    &&& forall|s: int, k: int| 0 <= s < shop_count && 0 <= k < 6 ==> card_ids(new_pricing).take(n).contains(
        #[trigger] new_items[8 * s + k] as i16,
    )
    &&& forall|s: int, k1: int, k2: int| 0 <= s < shop_count && 0 <= k1 < k2 < 6 ==>
        #[trigger] new_items[8 * s + k1] != #[trigger] new_items[8 * s + k2]
    &&& forall|p: int| 0 <= p < old_items.len() && (p >= 8 * shop_count || p % 8 >= 6) ==> #[trigger] new_items[p] == old_items[p]
}

/// Picks the cards that are priced, and stocks each card shop with six
/// different ones of them.
/// The card ids are shuffled with `pool_draws`, and the stock with the
/// lists of `stock_draws` in turn.
pub fn shop_items_with_draws(
    card_pricing: &mut Vec<CardPricing>,
    shop_count: usize,
    card_shop_items: &mut Vec<u16>,
    pool_draws: &Vec<usize>,
    stock_draws: &Vec<Vec<usize>>,
)
    requires
        shop_count > 0 ==> old(card_pricing).len() >= 6,
        old(card_shop_items).len() >= 8 * shop_count,
        stock_draws.len() >= 1,
        shop_count > 0 ==> stock_draws.len() * (priced_count(old(card_pricing).len() as int) / 6) >= shop_count,
        forall|t: int| 0 <= t < stock_draws.len() ==> (#[trigger] stock_draws@[t]).len() == 0 || priced_count(
            old(card_pricing).len() as int,
        ) >= 2,
    ensures
        card_shops_stocked(old(card_pricing)@, final(card_pricing)@, shop_count as int, old(card_shop_items)@, final(card_shop_items)@),
        card_shops_drawn(
            final(card_pricing)@,
            shop_count as int,
            final(card_shop_items)@,
            pool_draws@,
            stock_draws@.map_values(|v: Vec<usize>| v@),
        ),
{
    let mut pool = all_cards();
    proof {
        assert forall|a: int, b: int| 0 <= a < b < pool.len() implies pool@[a] != pool@[b] by {}
        assert(valid_cards(pool@));
    }
    let ghost p0 = pool@;
    assert(p0 =~= card_pool16());
    shuffle_with_draws(&mut pool, pool_draws);
    proof {
        lemma_permuted_cards(p0, pool@);
    }
    let ghost shuffled_pool = pool@;
    pool.truncate(card_pricing.len());
    let n = pool.len();
    let ghost chosen = pool@;
    proof {
        assert forall|a: int, b: int| 0 <= a < b < n implies chosen[a] != chosen[b] by {}
    }
    let mut i: usize = 0;
    while i < n
        invariant
            n == pool.len() <= card_pricing.len() == old(card_pricing).len(),
            n == if old(card_pricing).len() < CARD_COUNT { old(card_pricing).len() as int } else { CARD_COUNT as int },
            chosen == pool@,
            valid_cards(chosen),
            i <= n,
            forall|k: int| 0 <= k < i ==> (#[trigger] card_pricing@[k]).card_id == chosen[k] as i16,
            forall|k: int| 0 <= k < card_pricing.len() ==> (#[trigger] card_pricing@[k]).pricing == old(card_pricing)@[k].pricing,
            forall|k: int| i <= k < card_pricing.len() ==> #[trigger] card_pricing@[k] == old(card_pricing)@[k],
        decreases n - i,
    {
        card_pricing[i].card_id = pool[i] as i16;
        i += 1;
    }
    proof {
        assert(chosen =~= shuffled(card_pool16(), pool_draws@).take(n as int));
        vstd::arithmetic::div_mod::lemma_fundamental_div_mod(n as int, 6);
    }
    let per = n / 6;
    let ghost sd = stock_draws@.map_values(|v: Vec<usize>| v@);
    let mut randomized = copy_vec(&pool);
    assert(stock_draws@[0]@ == sd[0]);
    shuffle_with_draws(&mut randomized, &stock_draws[0]);
    let mut t: usize = 0;
    let mut m: usize = 0;
    proof {
        lemma_permuted_cards(chosen, randomized@);
        lemma_same_elements(chosen, randomized@);
    }
    let mut j: usize = 0;
    let mut s: usize = 0;
    while s < shop_count
        invariant
            shop_count > 0 ==> n >= 6,
            n == chosen.len() == pool.len(),
            chosen == pool@,
            valid_cards(chosen),
            randomized.len() == n,
            valid_cards(randomized@),
            forall|x: u16| #[trigger] randomized@.contains(x) ==> chosen.contains(x),
            j <= n,
            s <= shop_count,
            card_shop_items.len() == old(card_shop_items).len() >= 8 * shop_count,
            forall|a: int, k: int| 0 <= a < s && 0 <= k < 6 ==> chosen.contains(#[trigger] card_shop_items@[8 * a + k]),
            forall|a: int, k1: int, k2: int| 0 <= a < s && 0 <= k1 < k2 < 6 ==>
                #[trigger] card_shop_items@[8 * a + k1] != #[trigger] card_shop_items@[8 * a + k2],
            forall|p: int| 0 <= p < card_shop_items.len() && (p >= 8 * s || p % 8 >= 6) ==> #[trigger] card_shop_items@[p] == old(card_shop_items)@[p],
            per == n / 6,
            6 * per <= n < 6 * per + 6,
            sd == stock_draws@.map_values(|v: Vec<usize>| v@),
            stock_draws.len() >= 1,
            shop_count > 0 ==> stock_draws.len() * per >= shop_count,
            forall|q: int| 0 <= q < stock_draws.len() ==> (#[trigger] stock_draws@[q]).len() == 0 || n >= 2,
            t < stock_draws.len(),
            m <= per,
            j == 6 * m,
            s == t * per + m,
            randomized@ == shuffled(chosen, sd[t as int]),
            forall|a: int, k: int| 0 <= a < s && 0 <= k < 6 ==> #[trigger] card_shop_items@[8 * a + k] == shuffled(
                chosen,
                sd[a / (per as int)],
            )[6 * (a % (per as int)) + k],
        decreases shop_count - s,
    {
        if randomized.len() - j < 6 {
            proof {
                assert(m == per);
                assert((t + 1) * per == t * per + per) by (nonlinear_arith);
                assert(t + 1 < stock_draws.len()) by (nonlinear_arith)
                    requires
                        s == t * per + per,
                        s < shop_count,
                        stock_draws.len() * per >= shop_count,
                        per > 0;
            }
            j = 0;
            t = t + 1;
            m = 0;
            randomized = copy_vec(&pool);
            assert(stock_draws@[t as int]@ == sd[t as int]);
            shuffle_with_draws(&mut randomized, &stock_draws[t]);
            proof {
                lemma_permuted_cards(chosen, randomized@);
                lemma_same_elements(chosen, randomized@);
            }
        }
        proof {
            assert(per > 0);
            assert(m < per);
            vstd::arithmetic::div_mod::lemma_fundamental_div_mod_converse(s as int, per as int, t as int, m as int);
        }
        let ghost before = card_shop_items@;
        let mut k: usize = 0;
        while k < 6
            invariant
                j + 6 <= randomized.len(),
                valid_cards(randomized@),
                forall|x: u16| #[trigger] randomized@.contains(x) ==> chosen.contains(x),
                s < shop_count,
                card_shop_items.len() == before.len() >= 8 * shop_count,
                k <= 6,
                forall|q: int| 0 <= q < k ==> #[trigger] card_shop_items@[8 * s + q] == randomized@[j + q],
                forall|p: int| 0 <= p < card_shop_items.len() && (p < 8 * s || p >= 8 * s + k) ==> #[trigger] card_shop_items@[p] == before[p],
            decreases 6 - k,
        {
            card_shop_items.set(s * 8 + k, randomized[j + k]);
            k += 1;
        }
        proof {
            assert forall|a: int, q: int| 0 <= a < s + 1 && 0 <= q < 6 implies chosen.contains(#[trigger] card_shop_items@[8 * a + q]) by {
                if a < s {
                    assert(card_shop_items@[8 * a + q] == before[8 * a + q]);
                } else {
                    assert(card_shop_items@[8 * s + q] == randomized@[j + q]);
                    assert(randomized@.contains(randomized@[j + q]));
                }
            }
            assert forall|a: int, k1: int, k2: int| 0 <= a < s + 1 && 0 <= k1 < k2 < 6 implies
                #[trigger] card_shop_items@[8 * a + k1] != #[trigger] card_shop_items@[8 * a + k2] by {
                if a < s {
                    assert(card_shop_items@[8 * a + k1] == before[8 * a + k1]);
                    assert(card_shop_items@[8 * a + k2] == before[8 * a + k2]);
                } else {
                    assert(card_shop_items@[8 * s + k1] == randomized@[j + k1]);
                    assert(card_shop_items@[8 * s + k2] == randomized@[j + k2]);
                }
            }
            assert forall|p: int| 0 <= p < card_shop_items.len() && (p >= 8 * (s + 1) || p % 8 >= 6) implies #[trigger] card_shop_items@[p] == old(card_shop_items)@[p] by {
                if p >= 8 * s && p < 8 * s + 8 {
                    assert(p % 8 == p - 8 * s);
                }
                assert(card_shop_items@[p] == before[p]);
            }
        }
        proof {
            assert forall|a: int, k: int| 0 <= a < s + 1 && 0 <= k < 6 implies #[trigger] card_shop_items@[8 * a + k]
                == shuffled(chosen, sd[a / (per as int)])[6 * (a % (per as int)) + k] by {
                if a < s {
                    assert(8 * a + k < 8 * s);
                    assert(card_shop_items@[8 * a + k] == before[8 * a + k]);
                } else {
                    assert(card_shop_items@[8 * s + k] == randomized@[j + k]);
                }
            }
        }
        j += 6;
        m += 1;
        s += 1;
    }
    proof {
        assert forall|a: int, q: int| 0 <= a < shop_count && 0 <= q < 6 implies card_ids(card_pricing@).take(n as int).contains(
            #[trigger] card_shop_items@[8 * a + q] as i16) by {
            let x = choose|x: int| 0 <= x < chosen.len() && chosen[x] == card_shop_items@[8 * a + q];
            assert(card_pricing@[x].card_id == chosen[x] as i16);
            assert(1 <= chosen[x] <= CARD_COUNT);
            assert(card_pricing@[x].card_id == chosen[x]);
            assert(card_ids(card_pricing@).take(n as int)[x] == card_shop_items@[8 * a + q] as i16);
        }
        assert forall|a: int| 0 <= a < n implies 1 <= (#[trigger] card_pricing@[a]).card_id <= CARD_COUNT by {
            assert(card_pricing@[a].card_id == chosen[a] as i16);
            assert(1 <= chosen[a] <= CARD_COUNT);
        }
        assert forall|a: int, b: int| 0 <= a < b < n implies (#[trigger] card_pricing@[a]).card_id != (#[trigger] card_pricing@[b]).card_id by {
            assert(card_pricing@[a].card_id == chosen[a] as i16);
            assert(card_pricing@[b].card_id == chosen[b] as i16);
            assert(chosen[a] != chosen[b]);
            assert(1 <= chosen[a] <= CARD_COUNT);
            assert(1 <= chosen[b] <= CARD_COUNT);
        }
    }
    proof {
        assert(card_ids(card_pricing@).take(n as int) =~= chosen.map_values(|c: u16| c as i16)) by {
            assert forall|q: int| 0 <= q < n implies #[trigger] card_ids(card_pricing@).take(n as int)[q] == chosen.map_values(|c: u16| c as i16)[q] by {
                assert(card_pricing@[q].card_id == chosen[q] as i16);
            }
        }
    }
}

/// The card ids from 1 to `CARD_COUNT`.
pub open spec fn card_pool16() -> Seq<u16> {
    Seq::new(CARD_COUNT as nat, |k: int| (k + 1) as u16)
}

/// How many cards get priced out of `len` price slots.
pub open spec fn priced_count(len: int) -> int {
    if len < CARD_COUNT {
        len
    } else {
        CARD_COUNT as int
    }
}

/// The priced cards and the card shops' stock come from the given
/// shuffles: the priced cards are the first ones of the card ids shuffled
/// with `pool_draws`; the shops take six cards each, in order, from the
/// priced cards shuffled with `stock_draws[0]`, and, whenever fewer than
/// six are left, from them shuffled afresh with the next draws.
pub open spec fn card_shops_drawn(
    pricing: Seq<CardPricing>,
    shop_count: int,
    items: Seq<u16>,
    pool_draws: Seq<usize>,
    stock_draws: Seq<Seq<usize>>,
) -> bool {
    let n = priced_count(pricing.len() as int);
    let chosen = shuffled(card_pool16(), pool_draws).take(n);
    let per = n / 6;
    &&& forall|i: int| 0 <= i < n ==> (#[trigger] pricing[i]).card_id == chosen[i] as i16
    &&& forall|a: int, k: int| 0 <= a < shop_count && 0 <= k < 6 ==> #[trigger] items[8 * a + k] == shuffled(
        chosen,
        stock_draws[a / per],
    )[6 * (a % (per as int)) + k]
}

/// Picks the cards that are priced, and stocks each card shop with six
/// different ones of them, as `shop_items_with_draws` does with the draws
/// of `shuffle` for the card ids and for each shuffle of the stock, in
/// order.
pub fn shop_items(
    shuffles: u8,
    card_pricing: &mut Vec<CardPricing>,
    shop_count: usize,
    card_shop_items: &mut Vec<u16>,
    rng: &mut Xoshiro256StarStar,
)
    requires
        shop_count > 0 ==> old(card_pricing).len() >= 6,
        old(card_shop_items).len() >= 8 * shop_count,
    ensures
        card_shops_stocked(old(card_pricing)@, final(card_pricing)@, shop_count as int, old(card_shop_items)@, final(card_shop_items)@),
        exists|pool_draws: Seq<usize>, stock_draws: Seq<Seq<usize>>|
            #![trigger card_shops_drawn(final(card_pricing)@, shop_count as int, final(card_shop_items)@, pool_draws, stock_draws)]
            {
                &&& pool_draws.len() == crate::util::draw_count(CARD_COUNT as int, shuffles as int)
                &&& forall|t: int| 0 <= t < stock_draws.len() ==> (#[trigger] stock_draws[t]).len() == crate::util::draw_count(
                    priced_count(old(card_pricing).len() as int),
                    shuffles as int,
                )
                &&& card_shops_drawn(final(card_pricing)@, shop_count as int, final(card_shop_items)@, pool_draws, stock_draws)
            },
{
    let n = if card_pricing.len() < CARD_COUNT as usize { card_pricing.len() } else { CARD_COUNT as usize };
    let pool_draws = shuffle_draws(CARD_COUNT as usize, shuffles, rng);
    let count = if shop_count == 0 { 1 } else { (shop_count - 1) / (n / 6) + 1 };
    proof {
        if shop_count > 0 {
            let per = (n / 6) as int;
            assert(per > 0);
            vstd::arithmetic::div_mod::lemma_fundamental_div_mod((shop_count - 1) as int, per);
            assert(count * per >= shop_count) by (nonlinear_arith)
                requires
                    count == (shop_count - 1) / per + 1,
                    shop_count - 1 == per * ((shop_count - 1) / per) + (shop_count - 1) % per,
                    (shop_count - 1) % per < per,
                    per > 0;
        }
    }
    let mut stock_draws: Vec<Vec<usize>> = Vec::new();
    let mut t: usize = 0;
    while t < count
        invariant
            t <= count,
            stock_draws.len() == t,
            forall|q: int| 0 <= q < t ==> (#[trigger] stock_draws@[q])@.len() == crate::util::draw_count(n as int, shuffles as int),
        decreases count - t,
    {
        stock_draws.push(shuffle_draws(n, shuffles, rng));
        t += 1;
    }
    proof {
        assert forall|q: int| 0 <= q < stock_draws.len() implies (#[trigger] stock_draws@[q]).len() == 0 || priced_count(
            old(card_pricing).len() as int,
        ) >= 2 by {}
    }
    shop_items_with_draws(card_pricing, shop_count, card_shop_items, &pool_draws, &stock_draws);
    proof {
        let sd = stock_draws@.map_values(|v: Vec<usize>| v@);
        assert forall|q: int| 0 <= q < sd.len() implies (#[trigger] sd[q]).len() == crate::util::draw_count(
            priced_count(old(card_pricing).len() as int),
            shuffles as int,
        ) by {
            assert(sd[q] == stock_draws@[q]@);
        }
    }
}

/// The card ids from 1 to `CARD_COUNT`.
spec fn all_cards_spec() -> Seq<u16> {
    Seq::new(CARD_COUNT as nat, |k: int| (k + 1) as u16)
}

/// Sequences with the same multiset hold the same elements.
proof fn lemma_same_elements(a: Seq<u16>, b: Seq<u16>)
    requires
        a.to_multiset() == b.to_multiset(),
    ensures
        forall|x: u16| #[trigger] b.contains(x) ==> a.contains(x),
{
    assert forall|x: u16| #[trigger] b.contains(x) implies a.contains(x) by {
        assert(b.to_multiset().count(x) > 0);
    }
}


/// Replaces, key by key in order, every occurrence of `keys[t]` by `news[t]`.
pub open spec fn rename(s: Seq<u32>, keys: Seq<u32>, news: Seq<u32>) -> Seq<u32>
    decreases keys.len(),
{
    if keys.len() == 0 || news.len() == 0 {
        s
    } else {
        rename(s, keys.drop_last(), news.drop_last()).map_values(
            |x: u32| if x == keys.last() { news.last() } else { x },
        )
    }
}

/// The sixteen cards of slot `j` of booster `i`.
pub open spec fn booster_slot(items: Seq<u32>, i: int, j: int) -> Seq<u32> {
    items.subrange(96 * i + 16 * j, 96 * i + 16 * j + 16)
}

/// What `boosters` does to one slot: each card that the slot held
/// originally is replaced by a different random card.
pub open spec fn slot_rerolled(original: Seq<u32>, old_slot: Seq<u32>, new_slot: Seq<u32>) -> bool {
    exists|keys: Seq<u32>, news: Seq<u32>|
        {
            &&& keys.no_duplicates()
            &&& keys.to_set() == original.to_set()
            &&& news.len() == keys.len()
            &&& news.no_duplicates()
            &&& forall|k: int| 0 <= k < news.len() ==> 1 <= #[trigger] news[k] <= CARD_COUNT
            &&& new_slot == rename(old_slot, keys, news)
        }
}

/// Whether the value is among the first `len` elements.
fn contains_u32(v: &Vec<u32>, x: u32) -> (r: bool)
    ensures
        r == v@.contains(x),
{
    let mut i: usize = 0;
    while i < v.len()
        invariant
            i <= v.len(),
            forall|k: int| 0 <= k < i ==> v@[k] != x,
        decreases v.len() - i,
    {
        if v[i] == x {
            return true;
        }
        i += 1;
    }
    false
}

/// The card ids from 1 to `CARD_COUNT`.
fn all_cards_u32() -> (pool: Vec<u32>)
    ensures
        pool.len() == CARD_COUNT,
        pool@.no_duplicates(),
        forall|k: int| 0 <= k < CARD_COUNT ==> #[trigger] pool@[k] == k + 1,
{
    let mut pool: Vec<u32> = Vec::new();
    let mut c: u32 = 1;
    while c <= CARD_COUNT as u32
        invariant
            1 <= c <= CARD_COUNT + 1,
            pool.len() == c - 1,
            forall|k: int| 0 <= k < pool.len() ==> #[trigger] pool@[k] == k + 1,
        decreases CARD_COUNT + 1 - c,
    {
        pool.push(c);
        c += 1;
    }
    assert forall|a: int, b: int| 0 <= a < b < pool.len() implies pool@[a] != pool@[b] by {}
    pool
}

/// The different cards of the slot at `base`, in the order they first
/// appear.
fn slot_keys(original: &Vec<u32>, base: usize) -> (keys: Vec<u32>)
    requires
        base + 16 <= original.len(),
    ensures
        keys@ == first_distinct(original@.subrange(base as int, base + 16)),
        keys@.no_duplicates(),
        keys@.to_set() == original@.subrange(base as int, base + 16).to_set(),
        keys.len() <= 16,
{
    let ghost orig = original@.subrange(base as int, base + 16);
    let mut keys: Vec<u32> = Vec::new();
    let mut k: usize = 0;
    while k < 16
        invariant
            base + 16 <= original.len(),
            orig == original@.subrange(base as int, base + 16),
            k <= 16,
            keys@.no_duplicates(),
            keys.len() <= k,
            forall|y: u32| #[trigger] keys@.contains(y) <==> orig.take(k as int).contains(y),
            keys@ == first_distinct(orig.take(k as int)),
        decreases 16 - k,
    {
        let v = original[base + k];
        let ghost before = keys@;
        proof {
            assert(orig.take(k + 1).drop_last() =~= orig.take(k as int));
            assert(orig.take(k + 1).last() == v);
        }
        if !contains_u32(&keys, v) {
            keys.push(v);
            proof {
                assert forall|a: int, b: int| 0 <= a < b < keys@.len() implies keys@[a] != keys@[b] by {
                    if b == keys@.len() - 1 {
                        assert(before.contains(keys@[a]));
                    }
                }
            }
        }
        proof {
            let t1 = orig.take(k + 1);
            let t0 = orig.take(k as int);
            assert forall|y: u32| #[trigger] keys@.contains(y) <==> t1.contains(y) by {
                if t1.contains(y) {
                    let q = choose|q: int| 0 <= q < t1.len() && t1[q] == y;
                    if q < k {
                        assert(t0[q] == y);
                    }
                }
                if t0.contains(y) {
                    let q = choose|q: int| 0 <= q < t0.len() && t0[q] == y;
                    assert(t1[q] == y);
                }
                if y == v {
                    assert(t1[k as int] == y);
                }
                if keys@.contains(y) && !before.contains(y) {
                    assert(y == v);
                }
                if before.contains(y) {
                    let q = choose|q: int| 0 <= q < before.len() && before[q] == y;
                    assert(keys@[q] == y);
                }
                if y == v && !before.contains(y) {
                    assert(keys@[keys@.len() - 1] == y);
                }
            }
        }
        k += 1;
    }
    assert(orig.take(16) =~= orig);
    assert(keys@.to_set() =~= orig.to_set());
    keys
}

/// The card ids from 1 to `CARD_COUNT`, as a pool to draw from.
pub open spec fn card_pool() -> Seq<u32> {
    Seq::new(CARD_COUNT as nat, |k: int| (k + 1) as u32)
}

/// The different values of `s`, in the order they first appear.
pub open spec fn first_distinct(s: Seq<u32>) -> Seq<u32>
    decreases s.len(),
{
    if s.len() == 0 {
        Seq::empty()
    } else {
        let p = first_distinct(s.drop_last());
        if p.contains(s.last()) {
            p
        } else {
            p.push(s.last())
        }
    }
}

/// A slot rerolled with the given draws, one for each different card the
/// slot originally held, in the order they first appear: that card is
/// replaced by the card its draw takes from what is left of the card pool
/// (`picked`).
pub open spec fn slot_drawn(original: Seq<u32>, old_slot: Seq<u32>, new_slot: Seq<u32>, ds: Seq<u64>) -> bool {
    new_slot == rename(old_slot, first_distinct(original), picked(card_pool(), ds).0)
}

/// Rerolls one slot of one booster with the given draws (`slot_drawn`).
fn reroll_slot(original: &Vec<u32>, modified: &mut Vec<u32>, base: usize, ds: &Vec<u64>)
    requires
        base + 16 <= original.len(),
        base + 16 <= old(modified).len(),
        ds.len() == first_distinct(original@.subrange(base as int, base + 16)).len(),
    ensures
        final(modified).len() == old(modified).len(),
        slot_rerolled(
            original@.subrange(base as int, base + 16),
            old(modified)@.subrange(base as int, base + 16),
            final(modified)@.subrange(base as int, base + 16),
        ),
        slot_drawn(
            original@.subrange(base as int, base + 16),
            old(modified)@.subrange(base as int, base + 16),
            final(modified)@.subrange(base as int, base + 16),
            ds@,
        ),
        forall|p: int| 0 <= p < old(modified).len() && !(base <= p < base + 16) ==> #[trigger] final(modified)@[p] == old(modified)@[p],
{
    let ghost orig = original@.subrange(base as int, base + 16);
    let keys = slot_keys(original, base);
    let mut pool = all_cards_u32();
    let ghost pool0 = pool@;
    proof {
        assert(pool0 =~= card_pool());
        assert(ds@.take(0) =~= Seq::<u64>::empty());
    }
    let mut news: Vec<u32> = Vec::new();
    let ghost start = modified@;
    let mut t: usize = 0;
    while t < keys.len()
        invariant
            base + 16 <= modified.len() == start.len(),
            t <= keys.len() <= 16,
            news.len() == t,
            pool@.no_duplicates(),
            pool.len() == CARD_COUNT - t,
            forall|y: u32| #[trigger] pool@.contains(y) ==> 1 <= y <= CARD_COUNT,
            news@.no_duplicates(),
            forall|q: int| 0 <= q < t ==> 1 <= #[trigger] news@[q] <= CARD_COUNT,
            forall|q: int| 0 <= q < t ==> !pool@.contains(#[trigger] news@[q]),
            modified@.subrange(base as int, base + 16) == rename(start.subrange(base as int, base + 16), keys@.take(t as int), news@),
            ds.len() == keys.len(),
            pool0 == card_pool(),
            pool@ == picked(pool0, ds@.take(t as int)).1,
            news@ == picked(pool0, ds@.take(t as int)).0,
            forall|p: int| 0 <= p < start.len() && !(base <= p < base + 16) ==> #[trigger] modified@[p] == start[p],
        decreases keys.len() - t,
    {
        let key = keys[t];
        let ghost pool_before = pool@;
        let d = ds[t];
        let card = take_drawn(&mut pool, d);
        proof {
            lemma_picked_push(pool0, ds@.take(t as int), d);
            assert(ds@.take(t + 1) =~= ds@.take(t as int).push(d));
        }
        let ghost before_news = news@;
        news.push(card);
        proof {
            assert(pool_before.contains(card));
            assert forall|a: int, b: int| 0 <= a < b < news@.len() implies news@[a] != news@[b] by {
                if b == t {
                    assert(!pool_before.contains(before_news[a]));
                }
            }
            assert forall|q: int| 0 <= q < t + 1 implies !pool@.contains(#[trigger] news@[q]) by {
                if q < t {
                    assert(!pool_before.contains(before_news[q]));
                }
            }
        }
        let ghost slot_before = modified@.subrange(base as int, base + 16);
        let mut q: usize = 0;
        while q < 16
            invariant
                base + 16 <= modified.len() == start.len(),
                q <= 16,
                forall|p: int| 0 <= p < q ==> #[trigger] modified@[base + p] == if slot_before[p] == key { card } else { slot_before[p] },
                forall|p: int| q <= p < 16 ==> #[trigger] modified@[base + p] == slot_before[p],
                forall|p: int| 0 <= p < start.len() && !(base <= p < base + 16) ==> #[trigger] modified@[p] == start[p],
            decreases 16 - q,
        {
            if modified[base + q] == key {
                modified.set(base + q, card);
            }
            q += 1;
        }
        proof {
            assert(keys@.take(t + 1).drop_last() =~= keys@.take(t as int));
            assert(news@.drop_last() =~= before_news);
            assert(keys@.take(t + 1).last() == key);
            assert(news@.last() == card);
            let f = |x: u32| if x == key { card } else { x };
            assert(rename(start.subrange(base as int, base + 16), keys@.take(t + 1), news@) == rename(
                start.subrange(base as int, base + 16), keys@.take(t as int), before_news).map_values(f));
            assert forall|p: int| 0 <= p < 16 implies #[trigger] modified@.subrange(base as int, base + 16)[p] == slot_before.map_values(f)[p] by {
                assert(modified@[base + p] == if slot_before[p] == key { card } else { slot_before[p] });
            }
            assert(modified@.subrange(base as int, base + 16) =~= slot_before.map_values(f));
            assert(modified@.subrange(base as int, base + 16) =~= rename(start.subrange(base as int, base + 16), keys@.take(t + 1), news@));
        }
        t += 1;
    }
    assert(keys@.take(t as int) =~= keys@);
    assert(ds@.take(t as int) =~= ds@);
}


/// Rerolls the cards of every booster: within each of the six slots of a
/// booster, every card the slot originally held is replaced by a different
/// random card, the same card by the same card.
/// Slot `j` of booster `i` takes the draws `draws[6 * i + j]`.
pub fn boosters_with_draws(
    booster_count: usize,
    original: &Vec<u32>,
    modified: &mut Vec<u32>,
    draws: &Vec<Vec<u64>>,
)
    requires
        original.len() >= 96 * booster_count,
        old(modified).len() >= 96 * booster_count,
        draws.len() == 6 * booster_count,
        forall|i: int, j: int|
            0 <= i < booster_count && 0 <= j < 6 ==> (#[trigger] draws@[6 * i + j])@.len() == first_distinct(
                booster_slot(original@, i, j),
            ).len(),
    ensures
        final(modified).len() == old(modified).len(),
        forall|i: int, j: int| 0 <= i < booster_count && 0 <= j < 6 ==> slot_rerolled(
            booster_slot(original@, i, j),
            booster_slot(old(modified)@, i, j),
            #[trigger] booster_slot(final(modified)@, i, j),
        ),
        forall|p: int| 96 * booster_count <= p < old(modified).len() ==> #[trigger] final(modified)@[p] == old(modified)@[p],
        forall|i: int, j: int| 0 <= i < booster_count && 0 <= j < 6 ==> slot_drawn(
            booster_slot(original@, i, j),
            booster_slot(old(modified)@, i, j),
            #[trigger] booster_slot(final(modified)@, i, j),
            draws@[6 * i + j]@,
        ),
{
    let mut i: usize = 0;
    while i < booster_count
        invariant
            i <= booster_count,
            original.len() >= 96 * booster_count,
            modified.len() == old(modified).len() >= 96 * booster_count,
            forall|a: int, j: int| 0 <= a < i && 0 <= j < 6 ==> slot_rerolled(
                booster_slot(original@, a, j),
                booster_slot(old(modified)@, a, j),
                #[trigger] booster_slot(modified@, a, j),
            ),
            forall|p: int| 96 * i <= p < modified.len() ==> #[trigger] modified@[p] == old(modified)@[p],
            draws.len() == 6 * booster_count,
            forall|a: int, j: int|
                0 <= a < booster_count && 0 <= j < 6 ==> (#[trigger] draws@[6 * a + j])@.len() == first_distinct(
                    booster_slot(original@, a, j),
                ).len(),
            forall|a: int, j: int| 0 <= a < i && 0 <= j < 6 ==> slot_drawn(
                booster_slot(original@, a, j),
                booster_slot(old(modified)@, a, j),
                #[trigger] booster_slot(modified@, a, j),
                draws@[6 * a + j]@,
            ),
        decreases booster_count - i,
    {
        let mut j: usize = 0;
        let ghost outer = modified@;
        while j < 6
            invariant
                i < booster_count,
                j <= 6,
                original.len() >= 96 * booster_count,
                modified.len() == outer.len() == old(modified).len() >= 96 * booster_count,
                forall|a: int, jj: int| 0 <= a < i && 0 <= jj < 6 ==> slot_rerolled(
                    booster_slot(original@, a, jj),
                    booster_slot(old(modified)@, a, jj),
                    #[trigger] booster_slot(outer, a, jj),
                ),
                forall|jj: int| 0 <= jj < j ==> slot_rerolled(
                    booster_slot(original@, i as int, jj),
                    booster_slot(old(modified)@, i as int, jj),
                    #[trigger] booster_slot(modified@, i as int, jj),
                ),
                forall|p: int| 0 <= p < 96 * i ==> #[trigger] modified@[p] == outer[p],
                forall|p: int| 96 * i + 16 * j <= p < modified.len() ==> #[trigger] modified@[p] == old(modified)@[p],
                draws.len() == 6 * booster_count,
                forall|a: int, jj: int|
                    0 <= a < booster_count && 0 <= jj < 6 ==> (#[trigger] draws@[6 * a + jj])@.len() == first_distinct(
                        booster_slot(original@, a, jj),
                    ).len(),
                forall|a: int, jj: int| 0 <= a < i && 0 <= jj < 6 ==> slot_drawn(
                    booster_slot(original@, a, jj),
                    booster_slot(old(modified)@, a, jj),
                    #[trigger] booster_slot(outer, a, jj),
                    draws@[6 * a + jj]@,
                ),
                forall|jj: int| 0 <= jj < j ==> slot_drawn(
                    booster_slot(original@, i as int, jj),
                    booster_slot(old(modified)@, i as int, jj),
                    #[trigger] booster_slot(modified@, i as int, jj),
                    draws@[6 * i + jj]@,
                ),
            decreases 6 - j,
        {
            let ghost before = modified@;
            proof {
                assert(booster_slot(original@, i as int, j as int) =~= original@.subrange(i * 96 + j * 16, i * 96 + j * 16 + 16));
                assert(draws@[6 * i + j]@.len() == first_distinct(booster_slot(original@, i as int, j as int)).len());
            }
            reroll_slot(original, modified, i * 96 + j * 16, &draws[i * 6 + j]);
            proof {
                assert(i * 6 + j == 6 * i + j);
                assert forall|jj: int| 0 <= jj < j + 1 implies slot_drawn(
                    booster_slot(original@, i as int, jj),
                    booster_slot(old(modified)@, i as int, jj),
                    #[trigger] booster_slot(modified@, i as int, jj),
                    draws@[6 * i + jj]@,
                ) by {
                    if jj < j {
                        assert(booster_slot(modified@, i as int, jj) =~= booster_slot(before, i as int, jj));
                    } else {
                        assert(booster_slot(old(modified)@, i as int, jj) =~= before.subrange(i * 96 + j * 16, i * 96 + j * 16 + 16));
                        assert(booster_slot(modified@, i as int, jj) =~= modified@.subrange(i * 96 + j * 16, i * 96 + j * 16 + 16));
                    }
                }
                assert forall|jj: int| 0 <= jj < j + 1 implies slot_rerolled(
                    booster_slot(original@, i as int, jj),
                    booster_slot(old(modified)@, i as int, jj),
                    #[trigger] booster_slot(modified@, i as int, jj),
                ) by {
                    if jj < j {
                        assert(booster_slot(modified@, i as int, jj) =~= booster_slot(before, i as int, jj));
                    } else {
                        assert(booster_slot(old(modified)@, i as int, jj) =~= before.subrange(i * 96 + j * 16, i * 96 + j * 16 + 16));
                    }
                }
            }
            j += 1;
        }
        proof {
            assert forall|a: int, jj: int| 0 <= a < i + 1 && 0 <= jj < 6 implies slot_drawn(
                booster_slot(original@, a, jj),
                booster_slot(old(modified)@, a, jj),
                #[trigger] booster_slot(modified@, a, jj),
                draws@[6 * a + jj]@,
            ) by {
                if a < i {
                    assert(96 * a + 16 * jj + 16 <= 96 * i);
                    assert(booster_slot(modified@, a, jj) =~= booster_slot(outer, a, jj));
                }
            }
            assert forall|a: int, jj: int| 0 <= a < i + 1 && 0 <= jj < 6 implies slot_rerolled(
                booster_slot(original@, a, jj),
                booster_slot(old(modified)@, a, jj),
                #[trigger] booster_slot(modified@, a, jj),
            ) by {
                if a < i {
                    assert(96 * a + 16 * jj + 16 <= 96 * i);
                    assert(booster_slot(modified@, a, jj) =~= booster_slot(outer, a, jj));
                }
            }
        }
        i += 1;
    }
}

/// Rerolls the cards of every booster, as `boosters_with_draws` does with
/// one `next_u64` draw for each different card of each slot, in order.
pub fn boosters(
    booster_count: usize,
    original: &Vec<u32>,
    modified: &mut Vec<u32>,
    rng: &mut Xoshiro256StarStar,
)
    requires
        original.len() >= 96 * booster_count,
        old(modified).len() >= 96 * booster_count,
    ensures
        final(modified).len() == old(modified).len(),
        forall|i: int, j: int| 0 <= i < booster_count && 0 <= j < 6 ==> slot_rerolled(
            booster_slot(original@, i, j),
            booster_slot(old(modified)@, i, j),
            #[trigger] booster_slot(final(modified)@, i, j),
        ),
        forall|p: int| 96 * booster_count <= p < old(modified).len() ==> #[trigger] final(modified)@[p] == old(modified)@[p],
        exists|draws: Seq<Seq<u64>>|
            #![trigger draws.len()]
            draws.len() == 6 * booster_count && forall|i: int, j: int| 0 <= i < booster_count && 0 <= j < 6 ==> slot_drawn(
                booster_slot(original@, i, j),
                booster_slot(old(modified)@, i, j),
                #[trigger] booster_slot(final(modified)@, i, j),
                draws[6 * i + j],
            ),
{
    let mut draws: Vec<Vec<u64>> = Vec::new();
    let mut i: usize = 0;
    while i < booster_count
        invariant
            i <= booster_count,
            original.len() >= 96 * booster_count,
            draws.len() == 6 * i,
            forall|a: int, j: int|
                0 <= a < i && 0 <= j < 6 ==> (#[trigger] draws@[6 * a + j])@.len() == first_distinct(
                    booster_slot(original@, a, j),
                ).len(),
        decreases booster_count - i,
    {
        let mut j: usize = 0;
        while j < 6
            invariant
                i < booster_count,
                j <= 6,
                original.len() >= 96 * booster_count,
                draws.len() == 6 * i + j,
                forall|a: int, jj: int|
                    0 <= a < i && 0 <= jj < 6 ==> (#[trigger] draws@[6 * a + jj])@.len() == first_distinct(
                        booster_slot(original@, a, jj),
                    ).len(),
                forall|jj: int| 0 <= jj < j ==> (#[trigger] draws@[6 * i + jj])@.len() == first_distinct(
                    booster_slot(original@, i as int, jj),
                ).len(),
            decreases 6 - j,
        {
            let keys = slot_keys(original, i * 96 + j * 16);
            let mut row: Vec<u64> = Vec::new();
            let mut k: usize = 0;
            while k < keys.len()
                invariant
                    k <= keys.len(),
                    row.len() == k,
                decreases keys.len() - k,
            {
                row.push(next_u64(rng));
                k += 1;
            }
            proof {
                assert(booster_slot(original@, i as int, j as int) =~= original@.subrange(i * 96 + j * 16, i * 96 + j * 16 + 16));
            }
            let ghost before = draws@;
            draws.push(row);
            proof {
                assert forall|jj: int| 0 <= jj < j + 1 implies (#[trigger] draws@[6 * i + jj])@.len() == first_distinct(
                    booster_slot(original@, i as int, jj),
                ).len() by {
                    if jj < j {
                        assert(draws@[6 * i + jj] == before[6 * i + jj]);
                    }
                }
                assert forall|a: int, jj: int|
                    0 <= a < i && 0 <= jj < 6 implies (#[trigger] draws@[6 * a + jj])@.len() == first_distinct(
                        booster_slot(original@, a, jj),
                    ).len() by {
                    assert(6 * a + jj < 6 * i);
                    assert(draws@[6 * a + jj] == before[6 * a + jj]);
                }
            }
            j += 1;
        }
        i += 1;
    }
    boosters_with_draws(booster_count, original, modified, &draws);
    proof {
        let dv = draws@.map_values(|v: Vec<u64>| v@);
        assert(dv.len() == 6 * booster_count);
        assert forall|a: int, jj: int| 0 <= a < booster_count && 0 <= jj < 6 implies slot_drawn(
            booster_slot(original@, a, jj),
            booster_slot(old(modified)@, a, jj),
            #[trigger] booster_slot(modified@, a, jj),
            dv[6 * a + jj],
        ) by {
            assert(dv[6 * a + jj] == draws@[6 * a + jj]@);
        }
    }
}

/// The card game data that the randomizer changes.
pub struct CardGameData {
    pub card_pricing: Vec<CardPricing>,
    pub card_shop_count: usize,
    pub card_shop_items: Vec<u16>,
    pub booster_count: usize,
    pub booster_items_original: Vec<u32>,
    pub booster_items: Vec<u32>,
}

/// The card game settings can be carried out on these records
/// (`patch`'s requirements).
pub open spec fn card_game_ready(preset: CardGame, data: CardGameData) -> bool {
    &&& preset.buy_price ==> i16::MIN <= preset.min_card_buy_price <= preset.max_card_buy_price <= i16::MAX
    &&& preset.shop_items ==> (data.card_shop_count > 0 ==> data.card_pricing.len() >= 6)
    &&& preset.shop_items ==> data.card_shop_items.len() >= 8 * data.card_shop_count
    &&& preset.boosters ==> data.booster_items_original.len() >= 96 * data.booster_count
    &&& preset.boosters ==> data.booster_items.len() >= 96 * data.booster_count
}

/// What the card game step does: nothing when `on` is off, else what
/// `patch` promises.
pub open spec fn card_game_step(on: bool, preset: CardGame, old_d: CardGameData, new_d: CardGameData) -> bool {
    if !on {
        new_d == old_d
    } else {
        &&& new_d.card_shop_count == old_d.card_shop_count
        &&& new_d.booster_count == old_d.booster_count
        &&& new_d.booster_items_original == old_d.booster_items_original
        &&& !preset.shop_items ==> new_d.card_shop_items == old_d.card_shop_items
        &&& !preset.boosters ==> new_d.booster_items == old_d.booster_items
        &&& preset.buy_price ==> forall|i: int| 0 <= i < new_d.card_pricing.len() ==>
            preset.min_card_buy_price <= (#[trigger] new_d.card_pricing@[i]).pricing <= preset.max_card_buy_price
        &&& !preset.buy_price && !preset.shop_items ==> new_d.card_pricing@ == old_d.card_pricing@
        &&& preset.shop_items ==> exists|priced: Seq<CardPricing>| card_shops_stocked(
            priced,
            new_d.card_pricing@,
            old_d.card_shop_count as int,
            old_d.card_shop_items@,
            new_d.card_shop_items@,
        )
        &&& preset.boosters ==> forall|i: int, j: int| 0 <= i < old_d.booster_count && 0 <= j < 6 ==> slot_rerolled(
            booster_slot(old_d.booster_items_original@, i, j),
            booster_slot(old_d.booster_items@, i, j),
            #[trigger] booster_slot(new_d.booster_items@, i, j),
        )
    }
}

/// Randomizes the card game as the preset asks: prices, then the cards
/// sold and their shops, then the boosters.
pub fn patch(preset: &CardGame, shuffles: u8, data: &mut CardGameData, rng: &mut Xoshiro256StarStar)
    requires
        preset.buy_price ==> i16::MIN <= preset.min_card_buy_price <= preset.max_card_buy_price <= i16::MAX,
        preset.shop_items ==> (old(data).card_shop_count > 0 ==> old(data).card_pricing.len() >= 6),
        preset.shop_items ==> old(data).card_shop_items.len() >= 8 * old(data).card_shop_count,
        preset.boosters ==> old(data).booster_items_original.len() >= 96 * old(data).booster_count,
        preset.boosters ==> old(data).booster_items.len() >= 96 * old(data).booster_count,
    ensures
        final(data).card_shop_count == old(data).card_shop_count,
        final(data).booster_count == old(data).booster_count,
        final(data).booster_items_original == old(data).booster_items_original,
        !preset.shop_items ==> final(data).card_shop_items == old(data).card_shop_items,
        !preset.boosters ==> final(data).booster_items == old(data).booster_items,
        preset.buy_price ==> forall|i: int| 0 <= i < final(data).card_pricing.len() ==>
            preset.min_card_buy_price <= (#[trigger] final(data).card_pricing@[i]).pricing <= preset.max_card_buy_price,
        !preset.buy_price && !preset.shop_items ==> final(data).card_pricing@ == old(data).card_pricing@,
        preset.shop_items ==> exists|priced: Seq<CardPricing>| card_shops_stocked(
            priced,
            final(data).card_pricing@,
            old(data).card_shop_count as int,
            old(data).card_shop_items@,
            final(data).card_shop_items@,
        ),
        preset.boosters ==> forall|i: int, j: int| 0 <= i < old(data).booster_count && 0 <= j < 6 ==> slot_rerolled(
            booster_slot(old(data).booster_items_original@, i, j),
            booster_slot(old(data).booster_items@, i, j),
            #[trigger] booster_slot(final(data).booster_items@, i, j),
        ),
{
    if preset.buy_price {
        pricing(preset, &mut data.card_pricing, rng);
    }
    let ghost priced = data.card_pricing@;
    if preset.shop_items {
        shop_items(shuffles, &mut data.card_pricing, data.card_shop_count, &mut data.card_shop_items, rng);
        assert(card_shops_stocked(priced, data.card_pricing@, old(data).card_shop_count as int, old(data).card_shop_items@, data.card_shop_items@));
    }
    if preset.boosters {
        boosters(data.booster_count, &data.booster_items_original, &mut data.booster_items, rng);
    }
    if preset.shop_items {
        assert(card_shops_stocked(priced, data.card_pricing@, old(data).card_shop_count as int, old(data).card_shop_items@, data.card_shop_items@));
    }
}

} // verus!
