//! Identifiers and limits of the game's data.

use vstd::prelude::*;

verus! {

/// The first Cardmon.
pub const CARDMON_MIN: u16 = 0x1c9;

/// The last Cardmon.
pub const CARDMON_MAX: u16 = 0x1d0;

/// The bosses.
pub const BOSSES: [u16; 26] = [
    0x46, 0x7c, 0x8d, 0xb2, 0x151, 0x164, 0x166, 0x1b4, 0x1ba, 0x1bb, 0x1bc, 0x1bd, 0x1be, 0x1bf,
    0x1c0, 0x1c1, 0x1c2, 0x1c3, 0x1c4, 0x1c5, 0x1c6, 0x1c7, 0x1c8, 0x1d1, 0x1d2, 0x1d3,
];

/// Triceramon, who drops the TNT Ball.
pub const TRICERAMON_ID: u16 = 0xcb;

/// Zanbamon.
pub const ZANBAMON_ID: u16 = 0x151;

/// Galacticmon's first phase.
pub const GALACTICMON_1ST_PHASE: u16 = 0x1ba;

/// Galacticmon's three phases.
pub const GALACTICMON_IDS: [u16; 3] = [0x1ba, 0x1d2, 0x1d3];

/// The file of the Digimon's statistics.
pub const STATS_FILE: &'static str = "AAA/PRO/SDIGIEDT.PRO";

/// The file of the encounters.
pub const ENCOUNTERS_FILE: &'static str = "AAA/PRO/FIELDSTG.PRO";

/// The file of the shops.
pub const SHOPS_FILE: &'static str = "AAA/PRO/STITSHOP.PRO";

/// The file of experience and Bits rewards.
pub const EXP_FILE: &'static str = "AAA/PRO/STFGTREP.PRO";

/// How many shops the game has.
pub const SHOPS_LEN: usize = 30;

/// Where the overlay is loaded.
pub const OVERLAYADDRESS: u32 = 0x800100c4;

/// The fewest items a shop may be given.
pub const MIN_SHOP_ITEMS: i64 = 0;

/// The most items a shop may be given: the room there is for shop lists.
pub const MAX_SHOP_ITEMS: i64 = 37;

/// The lowest stat range a preset may ask for.
pub const MIN_STAT_RANGE: i64 = 0;

/// The highest stat range a preset may ask for.
pub const MAX_STAT_RANGE: i64 = 150;

/// The lowest sell price a preset may ask for: no item is free.
pub const MIN_SELL_PRICE: i64 = 1;

/// The highest sell price a preset may ask for: half of 65536. Twice this
/// price does not fit in a `u16`, so the shop randomizer takes sell prices
/// up to one less, whose buy price, twice the sell price, fits.
pub const MAX_SELL_PRICE: i64 = 32768;

/// The TNT Ball.
pub const TNT_BALL_ID: u16 = 0x5a;

/// The hit effect of moves that hit several times.
pub const MULTI_HIT: u8 = 0x9;

/// The Champion forms.
pub const CHAMPIONS: [u16; 10] = [0x182, 0x103, 0x183, 0x176, 0x14, 0x16f, 0x184, 0x5, 0x104, 0xea];

/// The Ultimate forms.
pub const ULTIMATES: [u16; 13] = [
    0x186, 0x187, 0x185, 0xd3, 0xc, 0x1b, 0x177, 0x13, 0x38, 0x170, 0xfe, 0x1a, 0x6,
];

/// The Mega forms.
pub const MEGAS: [u16; 13] = [
    0x188, 0x189, 0x18a, 0xd5, 0x94, 0x171, 0x178, 0xd6, 0xc4, 0x90, 0x10b, 0x3b, 0x42,
];

/// The Mega+ forms.
pub const MEGAPLUS: [u16; 5] = [0x96, 0xe6, 0x174, 0x17a, 0x167];

/// The Ultra forms.
pub const ULTRAS: [u16; 3] = [0x97, 0x179, 0x17d];

/// How many rookies there are.
pub const ROOKIE_COUNT: usize = 8;

/// How many digivolutions each rookie has.
pub const DIGIVOLUTION_COUNT: usize = 44;

/// The lowest affinity.
pub const MIN_STAT_AFFINITY: u8 = 1;

/// The highest affinity.
pub const MAX_STAT_AFFINITY: u8 = 5;

} // verus!
