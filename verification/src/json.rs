//! Preset settings and the values a preset takes when it leaves one out.

use crate::clock::now_timestamp;
use vstd::prelude::*;

verus! {

pub fn default_shop_limit() -> (r: u8)
    ensures
        r == 8,
{
    8
}

pub fn default_bool_true() -> (r: bool)
    ensures
        r == true,
{
    true
}

pub fn default_bool_false() -> (r: bool)
    ensures
        r == false,
{
    false
}

pub fn default_shuffles() -> (r: u8)
    ensures
        r == 5,
{
    5
}

pub fn default_scaling_offset() -> (r: i64)
    ensures
        r == 50,
{
    50
}

pub fn default_base_stats() -> (r: i32)
    ensures
        r == 180,
{
    180
}

pub fn default_base_res() -> (r: i32)
    ensures
        r == 620,
{
    620
}

pub fn default_stat_modifier() -> (r: i32)
    ensures
        r == 50,
{
    50
}

pub fn default_res_modifier() -> (r: i32)
    ensures
        r == 15,
{
    15
}

pub fn default_min_sell_price() -> (r: i64)
    ensures
        r == 6,
{
    6
}

pub fn default_max_sell_price() -> (r: i64)
    ensures
        r == 6000,
{
    6000
}

pub fn default_min_card_buy_price() -> (r: i64)
    ensures
        r == 500,
{
    500
}

pub fn default_max_card_buy_price() -> (r: i64)
    ensures
        r == 11000,
{
    11000
}

pub fn default_total_starting_stats() -> (r: u16)
    ensures
        r == 200,
{
    200
}

pub fn default_min_starting_stat() -> (r: u16)
    ensures
        r == 30,
{
    30
}

pub fn default_total_starting_ress() -> (r: u16)
    ensures
        r == 680,
{
    680
}

pub fn default_min_starting_res() -> (r: u16)
    ensures
        r == 60,
{
    60
}

pub fn default_min_exp_modifier() -> (r: u8)
    ensures
        r == 6,
{
    6
}

pub fn default_max_exp_modifier() -> (r: u8)
    ensures
        r == 10,
{
    10
}

pub fn default_min_hp_modifier() -> (r: u8)
    ensures
        r == 60,
{
    60
}

pub fn default_max_hp_modifier() -> (r: u8)
    ensures
        r == 100,
{
    100
}

pub fn default_min_mp_modifier() -> (r: u8)
    ensures
        r == 30,
{
    30
}

pub fn default_max_mp_modifier() -> (r: u8)
    ensures
        r == 75,
{
    75
}

pub fn default_min_starting_hp() -> (r: u8)
    ensures
        r == 130,
{
    130
}

pub fn default_max_starting_hp() -> (r: u8)
    ensures
        r == 180,
{
    180
}

pub fn default_min_starting_mp() -> (r: u8)
    ensures
        r == 10,
{
    10
}

pub fn default_max_starting_mp() -> (r: u8)
    ensures
        r == 200,
{
    200
}


/// What happens to the TNT Ball drop of Triceramon.
#[derive(Clone, Copy, Debug, PartialEq, Eq, Structural)]
pub enum TNTStrategy {
    Shuffle,
    Keep,
    Swap,
}

impl Default for TNTStrategy {
    fn default() -> (r: Self)
        ensures
            r == TNTStrategy::Swap,
    {
        TNTStrategy::Swap
    }
}

impl From<u8> for TNTStrategy {
    fn from(value: u8) -> (r: Self) {
        match value {
            0 => TNTStrategy::Shuffle,
            1 => TNTStrategy::Keep,
            _ => TNTStrategy::Swap,
        }
    }
}

impl vstd::std_specs::convert::FromSpecImpl<u8> for TNTStrategy {
    open spec fn obeys_from_spec() -> bool {
        true
    }

    open spec fn from_spec(value: u8) -> Self {
        if value == 0 {
            TNTStrategy::Shuffle
        } else if value == 1 {
            TNTStrategy::Keep
        } else {
            TNTStrategy::Swap
        }
    }
}

/// How randomized values are shared between encounters.
#[derive(Clone, Copy, Debug, PartialEq, Eq, Structural)]
pub enum GroupStrategy {
    Ungrouped,
    ByMap,
    Party,
}

impl Default for GroupStrategy {
    fn default() -> (r: Self)
        ensures
            r == GroupStrategy::Party,
    {
        GroupStrategy::Party
    }
}

impl From<u8> for GroupStrategy {
    fn from(value: u8) -> (r: Self) {
        match value {
            0 => GroupStrategy::Ungrouped,
            1 => GroupStrategy::ByMap,
            _ => GroupStrategy::Party,
        }
    }
}

impl vstd::std_specs::convert::FromSpecImpl<u8> for GroupStrategy {
    open spec fn obeys_from_spec() -> bool {
        true
    }

    open spec fn from_spec(value: u8) -> Self {
        if value == 0 {
            GroupStrategy::Ungrouped
        } else if value == 1 {
            GroupStrategy::ByMap
        } else {
            GroupStrategy::Party
        }
    }
}

/// Which items may be placed in shops and boxes.
#[derive(Clone, Copy, Debug, PartialEq, Eq, Structural)]
pub enum ShopItems {
    Buyable,
    Sellable,
}

impl Default for ShopItems {
    fn default() -> (r: Self)
        ensures
            r == ShopItems::Sellable,
    {
        ShopItems::Sellable
    }
}

impl From<u8> for ShopItems {
    fn from(value: u8) -> (r: Self) {
        match value {
            0 => ShopItems::Buyable,
            _ => ShopItems::Sellable,
        }
    }
}

impl vstd::std_specs::convert::FromSpecImpl<u8> for ShopItems {
    open spec fn obeys_from_spec() -> bool {
        true
    }

    open spec fn from_spec(value: u8) -> Self {
        if value == 0 {
            ShopItems::Buyable
        } else {
            ShopItems::Sellable
        }
    }
}

/// Model recoloring settings.
#[derive(Clone, Debug)]
pub struct Models {
    pub enabled: bool,
    pub hue_enabled: bool,
    pub stage_hue_enabled: bool,
}

impl Models {
    /// The values a preset takes when it leaves these settings out.
    pub open spec fn is_default(self) -> bool {
        &&& self.enabled == true
        &&& self.hue_enabled == false
        &&& self.stage_hue_enabled == false
    }
}

impl Default for Models {
    /// The values a preset takes when it leaves these settings out.
    fn default() -> (r: Self)
        ensures
            r.is_default(),
    {
        Models {
            enabled: default_bool_true(),
            hue_enabled: default_bool_false(),
            stage_hue_enabled: default_bool_false(),
        }
    }
}

/// Wild encounter settings.
#[derive(Clone, Debug)]
pub struct Encounters {
    pub enabled: bool,
    pub cardmon: bool,
    pub bosses: bool,
    pub keep_zanbamon: bool,
    pub keep_galacticmon: bool,
    pub strategy: TNTStrategy,
}

impl Encounters {
    /// The values a preset takes when it leaves these settings out.
    pub open spec fn is_default(self) -> bool {
        &&& self.enabled == true
        &&& self.cardmon == true
        &&& self.bosses == true
        &&& self.keep_zanbamon == true
        &&& self.keep_galacticmon == true
        &&& self.strategy == TNTStrategy::Swap
    }
}

impl Default for Encounters {
    /// The values a preset takes when it leaves these settings out.
    fn default() -> (r: Self)
        ensures
            r.is_default(),
    {
        Encounters {
            enabled: default_bool_true(),
            cardmon: default_bool_true(),
            bosses: default_bool_true(),
            keep_zanbamon: default_bool_true(),
            keep_galacticmon: default_bool_true(),
            strategy: TNTStrategy::default(),
        }
    }
}

/// Map settings.
#[derive(Clone, Debug)]
pub struct Maps {
    pub enabled: bool,
    pub color: bool,
    pub backgrounds: bool,
    pub item_boxes: bool,
    pub item_boxes_items_only: ShopItems,
    pub fight_backgrounds: bool,
    pub group_strategy: GroupStrategy,
}

impl Maps {
    /// The values a preset takes when it leaves these settings out.
    pub open spec fn is_default(self) -> bool {
        &&& self.enabled == true
        &&& self.color == false
        &&& self.backgrounds == false
        &&& self.item_boxes == true
        &&& self.item_boxes_items_only == ShopItems::Sellable
        &&& self.fight_backgrounds == true
        &&& self.group_strategy == GroupStrategy::Party
    }
}

impl Default for Maps {
    /// The values a preset takes when it leaves these settings out.
    fn default() -> (r: Self)
        ensures
            r.is_default(),
    {
        Maps {
            enabled: default_bool_true(),
            color: default_bool_false(),
            backgrounds: default_bool_false(),
            item_boxes: default_bool_true(),
            item_boxes_items_only: ShopItems::default(),
            fight_backgrounds: default_bool_true(),
            group_strategy: GroupStrategy::default(),
        }
    }
}

/// Player party settings.
#[derive(Clone, Debug)]
pub struct Parties {
    pub enabled: bool,
    pub parties: bool,
    pub stat_distribution: bool,
    pub res_distribution: bool,
    pub total_starting_stats: u16,
    pub min_starting_stat: u16,
    pub total_starting_res: u16,
    pub min_starting_res: u16,
    pub learned_tech: bool,
    pub signatures: bool,
    pub digivolutions: bool,
    pub keep_stages: bool,
    pub exp_modifier: bool,
    pub min_exp_modifier: u8,
    pub max_exp_modifier: u8,
    pub min_hp_modifier: u8,
    pub max_hp_modifier: u8,
    pub min_mp_modifier: u8,
    pub max_mp_modifier: u8,
    pub starting_hp_mp: bool,
    pub balance_hp_mp: bool,
    pub min_starting_hp: u8,
    pub max_starting_hp: u8,
    pub min_starting_mp: u8,
    pub max_starting_mp: u8,
}

impl Parties {
    /// The settings of the stat and resistance distributions can be met:
    /// five stats of at least the minimum fit in the total, and seven
    /// resistances of at least theirs in theirs.
    pub open spec fn distributions_fit(self) -> bool {
        &&& self.min_starting_stat * 5 <= self.total_starting_stats
        &&& self.min_starting_res * 7 <= self.total_starting_res
    }

    /// Every range of the growth modifiers and starting hit and magic
    /// points runs from its minimum up to its maximum.
    pub open spec fn ranges_ordered(self) -> bool {
        &&& self.min_exp_modifier <= self.max_exp_modifier
        &&& self.min_hp_modifier <= self.max_hp_modifier
        &&& self.min_mp_modifier <= self.max_mp_modifier
        &&& self.min_starting_hp <= self.max_starting_hp
        &&& self.min_starting_mp <= self.max_starting_mp
    }

    /// Whether the distribution settings can be met (`distributions_fit`).
    pub fn check_distributions(&self) -> (r: bool)
        ensures
            r == self.distributions_fit(),
    {
        (self.min_starting_stat as u32) * 5 <= self.total_starting_stats as u32 && (self.min_starting_res as u32) * 7
            <= self.total_starting_res as u32
    }

    /// Whether every range runs from its minimum up to its maximum
    /// (`ranges_ordered`).
    pub fn check_ranges(&self) -> (r: bool)
        ensures
            r == self.ranges_ordered(),
    {
        self.min_exp_modifier <= self.max_exp_modifier && self.min_hp_modifier <= self.max_hp_modifier
            && self.min_mp_modifier <= self.max_mp_modifier && self.min_starting_hp <= self.max_starting_hp
            && self.min_starting_mp <= self.max_starting_mp
    }

    /// The values a preset takes when it leaves these settings out.
    pub open spec fn is_default(self) -> bool {
        &&& self.enabled == true
        &&& self.parties == true
        &&& self.stat_distribution == true
        &&& self.res_distribution == true
        &&& self.total_starting_stats == 200
        &&& self.min_starting_stat == 30
        &&& self.total_starting_res == 680
        &&& self.min_starting_res == 60
        &&& self.learned_tech == true
        &&& self.signatures == true
        &&& self.digivolutions == true
        &&& self.keep_stages == true
        &&& self.exp_modifier == true
        &&& self.min_exp_modifier == 6
        &&& self.max_exp_modifier == 10
        &&& self.min_hp_modifier == 60
        &&& self.max_hp_modifier == 100
        &&& self.min_mp_modifier == 30
        &&& self.max_mp_modifier == 75
        &&& self.starting_hp_mp == true
        &&& self.balance_hp_mp == true
        &&& self.min_starting_hp == 130
        &&& self.max_starting_hp == 180
        &&& self.min_starting_mp == 10
        &&& self.max_starting_mp == 200
    }
}

impl Default for Parties {
    /// The values a preset takes when it leaves these settings out.
    fn default() -> (r: Self)
        ensures
            r.is_default(),
    {
        Parties {
            enabled: default_bool_true(),
            parties: default_bool_true(),
            stat_distribution: default_bool_true(),
            res_distribution: default_bool_true(),
            total_starting_stats: default_total_starting_stats(),
            min_starting_stat: default_min_starting_stat(),
            total_starting_res: default_total_starting_ress(),
            min_starting_res: default_min_starting_res(),
            learned_tech: default_bool_true(),
            signatures: default_bool_true(),
            digivolutions: default_bool_true(),
            keep_stages: default_bool_true(),
            exp_modifier: default_bool_true(),
            min_exp_modifier: default_min_exp_modifier(),
            max_exp_modifier: default_max_exp_modifier(),
            min_hp_modifier: default_min_hp_modifier(),
            max_hp_modifier: default_max_hp_modifier(),
            min_mp_modifier: default_min_mp_modifier(),
            max_mp_modifier: default_max_mp_modifier(),
            starting_hp_mp: default_bool_true(),
            balance_hp_mp: default_bool_true(),
            min_starting_hp: default_min_starting_hp(),
            max_starting_hp: default_max_starting_hp(),
            min_starting_mp: default_min_starting_mp(),
            max_starting_mp: default_max_starting_mp(),
        }
    }
}

/// Item shop settings.
#[derive(Clone, Debug)]
pub struct Shops {
    pub enabled: bool,
    pub limit_shop_items_enabled: bool,
    pub limit_shop_items: u8,
    pub items_only: ShopItems,
    pub sell_price: bool,
    pub min_sell_price: i64,
    pub max_sell_price: i64,
    pub keep_tnt: bool,
}

impl Shops {
    /// The values a preset takes when it leaves these settings out.
    pub open spec fn is_default(self) -> bool {
        &&& self.enabled == true
        &&& self.limit_shop_items_enabled == true
        &&& self.limit_shop_items == 8
        &&& self.items_only == ShopItems::Sellable
        &&& self.sell_price == true
        &&& self.min_sell_price == 6
        &&& self.max_sell_price == 6000
        &&& self.keep_tnt == true
    }
}

impl Default for Shops {
    /// The values a preset takes when it leaves these settings out.
    fn default() -> (r: Self)
        ensures
            r.is_default(),
    {
        Shops {
            enabled: default_bool_true(),
            limit_shop_items_enabled: default_bool_true(),
            limit_shop_items: default_shop_limit(),
            items_only: ShopItems::default(),
            sell_price: default_bool_true(),
            min_sell_price: default_min_sell_price(),
            max_sell_price: default_max_sell_price(),
            keep_tnt: default_bool_true(),
        }
    }
}

/// Card game settings.
#[derive(Clone, Debug)]
pub struct CardGame {
    pub enabled: bool,
    pub shop_items: bool,
    pub buy_price: bool,
    pub min_card_buy_price: i64,
    pub max_card_buy_price: i64,
    pub boosters: bool,
    pub starting_folder: bool,
}

impl CardGame {
    /// The values a preset takes when it leaves these settings out.
    pub open spec fn is_default(self) -> bool {
        &&& self.enabled == true
        &&& self.shop_items == true
        &&& self.buy_price == true
        &&& self.min_card_buy_price == 500
        &&& self.max_card_buy_price == 11000
        &&& self.boosters == true
        &&& self.starting_folder == true
    }
}

impl Default for CardGame {
    /// The values a preset takes when it leaves these settings out.
    fn default() -> (r: Self)
        ensures
            r.is_default(),
    {
        CardGame {
            enabled: default_bool_true(),
            shop_items: default_bool_true(),
            buy_price: default_bool_true(),
            min_card_buy_price: default_min_card_buy_price(),
            max_card_buy_price: default_max_card_buy_price(),
            boosters: default_bool_true(),
            starting_folder: default_bool_true(),
        }
    }
}

/// Fixes to the game's own data.
#[derive(Clone, Debug)]
pub struct Fixes {
    pub scaling: bool,
}

impl Fixes {
    /// The values a preset takes when it leaves these settings out.
    pub open spec fn is_default(self) -> bool {
        &&& self.scaling == false
    }
}

impl Default for Fixes {
    /// The values a preset takes when it leaves these settings out.
    fn default() -> (r: Self)
        ensures
            r.is_default(),
    {
        Fixes {
            scaling: default_bool_false(),
        }
    }
}

/// Enemy scaling settings; the hit point factor, a float, is applied outside the library.
#[derive(Clone, Debug)]
pub struct Scaling {
    pub enabled: bool,
    pub scaling_offset: i64,
    pub base_stats: i32,
    pub base_res: i32,
    pub stat_modifier: i32,
    pub res_modifier: i32,
    pub natural_scaling: bool,
}

impl Scaling {
    /// The values a preset takes when it leaves these settings out.
    pub open spec fn is_default(self) -> bool {
        &&& self.enabled == true
        &&& self.scaling_offset == 50
        &&& self.base_stats == 180
        &&& self.base_res == 620
        &&& self.stat_modifier == 50
        &&& self.res_modifier == 15
        &&& self.natural_scaling == true
    }
}

impl Default for Scaling {
    /// The values a preset takes when it leaves these settings out.
    fn default() -> (r: Self)
        ensures
            r.is_default(),
    {
        Scaling {
            enabled: default_bool_true(),
            scaling_offset: default_scaling_offset(),
            base_stats: default_base_stats(),
            base_res: default_base_res(),
            stat_modifier: default_stat_modifier(),
            res_modifier: default_res_modifier(),
            natural_scaling: default_bool_true(),
        }
    }
}

/// The randomizer settings of a preset.
#[derive(Clone, Debug)]
pub struct Randomizer {
    pub seed: u64,
    pub shuffles: u8,
    pub encounters: Encounters,
    pub parties: Parties,
    pub shops: Shops,
    pub card_game: CardGame,
    pub maps: Maps,
    pub models: Models,
}

/// The settings of a preset that the randomization reads: the
/// randomizers', the fixes' and the enemy scaling's.
#[derive(Clone, Debug)]
pub struct Preset {
    pub randomizer: Randomizer,
    pub fixes: Fixes,
    pub scaling: Scaling,
}

/// The seed of a preset that names none: the current Unix timestamp in
/// seconds, as a `u64` (`now_timestamp`).
pub fn default_seed() -> u64 {
    now_timestamp()
}

impl Default for Randomizer {
    /// The values a preset takes when it leaves these settings out; the
    /// seed is taken from the clock.
    fn default() -> (r: Self)
        ensures
            r.shuffles == 5,
            r.encounters.is_default(),
            r.parties.is_default(),
            r.shops.is_default(),
            r.card_game.is_default(),
            r.maps.is_default(),
            r.models.is_default(),
    {
        Randomizer {
            seed: default_seed(),
            shuffles: default_shuffles(),
            encounters: Encounters::default(),
            parties: Parties::default(),
            shops: Shops::default(),
            card_game: CardGame::default(),
            maps: Maps::default(),
            models: Models::default(),
        }
    }
}

} // verus!
