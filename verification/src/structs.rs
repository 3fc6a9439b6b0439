//! Records of the game's data files.

use vstd::prelude::*;

verus! {

/// Battle statistics of an enemy Digimon.
#[derive(Debug, Clone, Copy)]
pub struct EnemyStats {
    pub digimon_id: u16,
    pub droppable_item: u16,
    pub drop_rate: u16,
    pub some_index: u16,
    pub attack: u16,
    pub move_1: u16,
    pub move_2: u16,
    pub str: i16,
    pub def: i16,
    pub spt: i16,
    pub wis: i16,
    pub spd: i16,
    pub fir_res: i16,
    pub wtr_res: i16,
    pub ice_res: i16,
    pub wnd_res: i16,
    pub thd_res: i16,
    pub mch_res: i16,
    pub drk_res: i16,
    pub psn_rate: u16,
    pub par_rate: u16,
    pub cnf_rate: u16,
    pub slp_rate: u16,
    pub ko_rate: u16,
    pub digimon_type: u16,
    pub moveset_1: Moveset,
    pub moveset_2: Moveset,
    pub moveset_3: Moveset,
    pub moveset_4: Moveset,
    pub counter_moveset: Moveset,
}

/// One wild or story encounter.
#[derive(Debug, Clone, Copy, PartialEq, Eq, Structural)]
pub struct EncounterData {
    pub digimon_id: u32,
    pub lv: u16,
    pub max_hp: u16,
    pub max_mp: u16,
    pub multiplier: u16,
}

/// An enemy's action rule.
#[derive(Debug, Clone, Copy)]
pub struct Moveset {
    pub action: u8,
    pub comparator: u8,
    pub value: u16,
}

/// Statistics of a player Digimon form.
#[derive(Debug, Clone)]
pub struct DigivolutionData {
    pub digimon_id: u16,
    pub str: u16,
    pub def: u16,
    pub spt: u16,
    pub wis: u16,
    pub spd: u16,
    pub chr: u16,
    pub fir_res: u16,
    pub wtr_res: u16,
    pub ice_res: u16,
    pub wnd_res: u16,
    pub thd_res: u16,
    pub mch_res: u16,
    pub drk_res: u16,
    pub attack: u16,
    pub tech: Vec<u16>,
    pub ori_tech: u16,
    pub dv_tech: u16,
    pub psn_rate: u8,
    pub par_rate: u8,
    pub cnf_rate: u8,
    pub slp_rate: u8,
    pub ko_rate: u8,
    pub tech_learn_level: Vec<u8>,
    pub tech_load_level: Vec<u8>,
    pub unk0: u8,
    pub dv: u8,
    pub unk1: u8,
    pub exp_modifier: u8,
    pub unk: u16,
    pub hp_modifier: u8,
    pub mp_modifier: u8,
    pub stat_offsets: Vec<u8>,
    pub res_offsets: Vec<u8>,
    pub unk_arr_1: Vec<u8>,
}

/// A shop: how many items it sells and where its item list starts.
#[derive(Debug, Clone, Copy)]
pub struct Shop {
    pub item_count: u32,
    pub items: Pointer,
}

/// An address in the game's memory.
#[derive(Debug, Clone, Copy, PartialEq, Eq, Structural)]
pub struct Pointer {
    pub value: u32,
}

/// A move.
#[derive(Debug, Clone, Copy)]
pub struct MoveData {
    pub mp: u16,
    pub power: u16,
    pub unk1: u16,
    pub accuracy: u8,
    pub unk2: u8,
    pub boost: u8,
    pub effective_against: u8,
    pub hit_effect: u8,
    pub effect_rate: u8,
    pub effect_value: u8,
    pub unk3: u8,
    pub unk4: u16,
    pub move_type: u8,
    pub freq: u8,
}

/// Shop data of an item.
#[derive(Debug, Clone, Copy)]
pub struct ItemShopData {
    pub unk_ptr: Pointer,
    pub buy_price: u16,
    pub sell_price: u16,
    pub unk: u32,
}

/// When a form can be reached: its own index and the forms it requires.
#[derive(Debug, Clone, Copy)]
pub struct DigivolutionCondition {
    pub index: u32,
    pub dv_index_1: u16,
    pub rq_level_1: u16,
    pub dv_index_2: u16,
    pub rq_level_2: u16,
    pub rq_type: u16,
    pub rq: u16,
}

/// The digivolution conditions of one rookie.
#[derive(Debug, Clone)]
pub struct DigivolutionConditions {
    pub conditions: Vec<DigivolutionCondition>,
}

/// Where the main executable is loaded.
pub const EXECUTABLE_BASE: u32 = 0x8000f800;

impl Pointer {
    /// Offset of the address in the main executable.
    pub fn to_index(&self) -> (r: u32)
        requires
            self.value >= EXECUTABLE_BASE,
        ensures
            r == self.value - EXECUTABLE_BASE,
    {
        self.value - EXECUTABLE_BASE
    }

    /// Offset of the address in an overlay loaded at `index`.
    pub fn to_index_overlay(&self, index: u32) -> (r: u32)
        requires
            self.value >= index,
        ensures
            r == self.value - index,
    {
        self.value - index
    }

    /// The pointer stored little-endian in the first four bytes.
    pub fn from_slice(buf: &[u8]) -> (p: Pointer)
        requires
            buf.len() >= 4,
        ensures
            p.value == buf[0] + 256 * buf[1] + 65536 * buf[2] + 16777216 * buf[3],
    {
        let value = (buf[0] as u32) + 256 * (buf[1] as u32) + 65536 * (buf[2] as u32) + 16777216 * (
        buf[3] as u32);
        Pointer { value }
    }
}

} // verus!
