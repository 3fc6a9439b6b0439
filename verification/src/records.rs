//! Byte layouts of the game's records: their fields one after another in
//! the order of declaration, little-endian, without padding.

use crate::pack::{le_bytes, u32_at};
use crate::structs::{
    DigivolutionCondition, DigivolutionConditions, DigivolutionData, EncounterData, EnemyStats, ItemShopData, MoveData, Moveset, Pointer, Shop,
};
use vstd::prelude::*;

verus! {

/// The little-endian `u16` stored at `pos`.
pub open spec fn u16_at(s: Seq<u8>, pos: int) -> int {
    s[pos] + 256 * s[pos + 1]
}

/// The two little-endian bytes of `v`.
pub open spec fn u16_le(v: u16) -> Seq<u8> {
    seq![(v % 256) as u8, (v / 256) as u8]
}

/// The four little-endian bytes of `v`.
pub open spec fn u32_le(v: u32) -> Seq<u8> {
    le_bytes(v as int)
}

/// The `i16` whose two's complement bits are the `u16` stored at `pos`.
pub open spec fn i16_at(s: Seq<u8>, pos: int) -> i16 {
    (u16_at(s, pos) as u16) as i16
}

/// The two little-endian bytes of `v`'s two's complement bits.
pub open spec fn i16_le(v: i16) -> Seq<u8> {
    u16_le(v as u16)
}

/// Decoding the bytes of a `u16` gives it back.
proof fn lemma_u16_le(v: u16)
    ensures
        u16_le(v).len() == 2,
        u16_at(u16_le(v), 0) == v,
{
    assert((v % 256) + 256 * (v / 256) == v) by (bit_vector);
}

/// Decoding the bytes of an `i16` gives it back.
proof fn lemma_i16_le(v: i16)
    ensures
        i16_le(v).len() == 2,
        i16_at(i16_le(v), 0) == v,
{
    let u = v as u16;
    lemma_u16_le(u);
    assert(((v as u16) as i16) == v) by (bit_vector);
}

/// Decoding the bytes of a `u32` gives it back.
proof fn lemma_u32_le(v: u32)
    ensures
        u32_le(v).len() == 4,
        u32_at(u32_le(v), 0) == v,
{
    let b = u32_le(v);
    assert((v % 256) + 256 * ((v / 256) % 256) + 65536 * ((v / 65536) % 256) + 16777216 * ((v
        / 16777216) % 256) == v) by (bit_vector);
}

/// Reads the little-endian `u16` at `pos`.
fn read_u16(data: &[u8], pos: usize) -> (v: u16)
    requires
        pos + 2 <= data.len(),
    ensures
        v == u16_at(data@, pos as int),
{
    data[pos] as u16 + 256 * (data[pos + 1] as u16)
}

/// Reads the `i16` stored at `pos`.
fn read_i16(data: &[u8], pos: usize) -> (v: i16)
    requires
        pos + 2 <= data.len(),
    ensures
        v == i16_at(data@, pos as int),
{
    read_u16(data, pos) as i16
}

/// Reads the little-endian `u32` at `pos`.
fn read_u32(data: &[u8], pos: usize) -> (v: u32)
    requires
        pos + 4 <= data.len(),
    ensures
        v == u32_at(data@, pos as int),
{
    data[pos] as u32 + 256 * (data[pos + 1] as u32) + 65536 * (data[pos + 2] as u32) + 16777216 * (
    data[pos + 3] as u32)
}

/// Appends the bytes of a `u16`.
fn push_u16(out: &mut Vec<u8>, v: u16)
    ensures
        final(out)@ == old(out)@ + u16_le(v),
{
    out.push((v % 256) as u8);
    out.push((v / 256) as u8);
    assert(out@ =~= old(out)@ + u16_le(v));
}

/// Appends the bytes of an `i16`.
fn push_i16(out: &mut Vec<u8>, v: i16)
    ensures
        final(out)@ == old(out)@ + i16_le(v),
{
    push_u16(out, v as u16);
}

/// Appends the bytes of a `u32`.
fn push_u32(out: &mut Vec<u8>, v: u32)
    ensures
        final(out)@ == old(out)@ + u32_le(v),
{
    out.push((v % 256) as u8);
    out.push(((v / 256) % 256) as u8);
    out.push(((v / 65536) % 256) as u8);
    out.push(((v / 16777216) % 256) as u8);
    assert(out@ =~= old(out)@ + u32_le(v));
}

/// Reads `n` little-endian `u16`s from `pos` on.
fn read_u16s(data: &[u8], pos: usize, n: usize) -> (t: Vec<u16>)
    requires
        pos + 2 * n <= data.len(),
    ensures
        t@ == u16s_at(data@, pos as int, n as int),
{
    let mut t: Vec<u16> = Vec::new();
    let mut i: usize = 0;
    while i < n
        invariant
            i <= n,
            pos + 2 * n <= data.len(),
            t@ == u16s_at(data@, pos as int, i as int),
        decreases n - i,
    {
        t.push(read_u16(data, pos + 2 * i));
        i += 1;
        assert(t@ =~= u16s_at(data@, pos as int, i as int));
    }
    t
}

/// Copies the bytes from `a` up to `b`.
fn read_bytes(data: &[u8], a: usize, b: usize) -> (v: Vec<u8>)
    requires
        a <= b <= data.len(),
    ensures
        v@ == data@.subrange(a as int, b as int),
{
    let mut v: Vec<u8> = Vec::new();
    let mut i: usize = a;
    while i < b
        invariant
            a <= i <= b <= data.len(),
            v@ == data@.subrange(a as int, i as int),
        decreases b - i,
    {
        v.push(data[i]);
        i += 1;
        assert(v@ =~= data@.subrange(a as int, i as int));
    }
    v
}

/// Appends the bytes of a list of `u16`s.
fn push_u16s(out: &mut Vec<u8>, t: &Vec<u16>)
    ensures
        final(out)@ == old(out)@ + u16s_le(t@),
{
    let mut i: usize = 0;
    while i < t.len()
        invariant
            i <= t.len(),
            out@ == old(out)@ + u16s_le(t@.take(i as int)),
        decreases t.len() - i,
    {
        let ghost before = out@;
        push_u16(out, t[i]);
        assert(t@.take(i + 1).drop_last() =~= t@.take(i as int));
        i += 1;
        assert(out@ =~= old(out)@ + u16s_le(t@.take(i as int)));
    }
    assert(t@.take(t.len() as int) =~= t@);
}

/// Appends bytes.
fn push_bytes(out: &mut Vec<u8>, v: &Vec<u8>)
    ensures
        final(out)@ == old(out)@ + v@,
{
    let mut i: usize = 0;
    while i < v.len()
        invariant
            i <= v.len(),
            out@ == old(out)@ + v@.take(i as int),
        decreases v.len() - i,
    {
        out.push(v[i]);
        i += 1;
        assert(out@ =~= old(out)@ + v@.take(i as int));
    }
    assert(v@.take(v.len() as int) =~= v@);
}

/// The bytes of a pointer.
pub open spec fn pointer_bytes(p: Pointer) -> Seq<u8> {
    u32_le(p.value)
}

/// The pointer stored at `pos`.
pub open spec fn pointer_at(s: Seq<u8>, pos: int) -> Pointer {
    Pointer { value: u32_at(s, pos) as u32 }
}

/// The bytes of a shop.
pub open spec fn shop_bytes(sh: Shop) -> Seq<u8> {
    u32_le(sh.item_count) + pointer_bytes(sh.items)
}

/// The shop stored at `pos`.
pub open spec fn shop_at(s: Seq<u8>, pos: int) -> Shop {
    Shop { item_count: u32_at(s, pos) as u32, items: pointer_at(s, pos + 4) }
}

/// The bytes of an item's shop data.
pub open spec fn item_shop_bytes(d: ItemShopData) -> Seq<u8> {
    pointer_bytes(d.unk_ptr) + u16_le(d.buy_price) + u16_le(d.sell_price) + u32_le(d.unk)
}

/// The item shop data stored at `pos`.
pub open spec fn item_shop_at(s: Seq<u8>, pos: int) -> ItemShopData {
    ItemShopData {
        unk_ptr: pointer_at(s, pos),
        buy_price: u16_at(s, pos + 4) as u16,
        sell_price: u16_at(s, pos + 6) as u16,
        unk: u32_at(s, pos + 8) as u32,
    }
}

/// The bytes of an encounter.
pub open spec fn encounter_bytes(e: EncounterData) -> Seq<u8> {
    u32_le(e.digimon_id) + u16_le(e.lv) + u16_le(e.max_hp) + u16_le(e.max_mp) + u16_le(e.multiplier)
}

/// The encounter stored at `pos`.
pub open spec fn encounter_at(s: Seq<u8>, pos: int) -> EncounterData {
    EncounterData {
        digimon_id: u32_at(s, pos) as u32,
        lv: u16_at(s, pos + 4) as u16,
        max_hp: u16_at(s, pos + 6) as u16,
        max_mp: u16_at(s, pos + 8) as u16,
        multiplier: u16_at(s, pos + 10) as u16,
    }
}

/// The bytes of an enemy's action rule.
pub open spec fn moveset_bytes(m: Moveset) -> Seq<u8> {
    seq![m.action, m.comparator] + u16_le(m.value)
}

/// The action rule stored at `pos`.
pub open spec fn moveset_at(s: Seq<u8>, pos: int) -> Moveset {
    Moveset { action: s[pos], comparator: s[pos + 1], value: u16_at(s, pos + 2) as u16 }
}

/// The bytes of a move.
pub open spec fn move_bytes(m: MoveData) -> Seq<u8> {
    u16_le(m.mp) + u16_le(m.power) + u16_le(m.unk1) + seq![
        m.accuracy,
        m.unk2,
        m.boost,
        m.effective_against,
        m.hit_effect,
        m.effect_rate,
        m.effect_value,
        m.unk3,
    ] + u16_le(m.unk4) + seq![m.move_type, m.freq]
}

/// The move stored at `pos`.
pub open spec fn move_at(s: Seq<u8>, pos: int) -> MoveData {
    MoveData {
        mp: u16_at(s, pos) as u16,
        power: u16_at(s, pos + 2) as u16,
        unk1: u16_at(s, pos + 4) as u16,
        accuracy: s[pos + 6],
        unk2: s[pos + 7],
        boost: s[pos + 8],
        effective_against: s[pos + 9],
        hit_effect: s[pos + 10],
        effect_rate: s[pos + 11],
        effect_value: s[pos + 12],
        unk3: s[pos + 13],
        unk4: u16_at(s, pos + 14) as u16,
        move_type: s[pos + 16],
        freq: s[pos + 17],
    }
}

/// The bytes of a digivolution condition.
pub open spec fn condition_bytes(c: DigivolutionCondition) -> Seq<u8> {
    u32_le(c.index) + u16_le(c.dv_index_1) + u16_le(c.rq_level_1) + u16_le(c.dv_index_2) + u16_le(
        c.rq_level_2,
    ) + u16_le(c.rq_type) + u16_le(c.rq)
}

/// The digivolution condition stored at `pos`.
pub open spec fn condition_at(s: Seq<u8>, pos: int) -> DigivolutionCondition {
    DigivolutionCondition {
        index: u32_at(s, pos) as u32,
        dv_index_1: u16_at(s, pos + 4) as u16,
        rq_level_1: u16_at(s, pos + 6) as u16,
        dv_index_2: u16_at(s, pos + 8) as u16,
        rq_level_2: u16_at(s, pos + 10) as u16,
        rq_type: u16_at(s, pos + 12) as u16,
        rq: u16_at(s, pos + 14) as u16,
    }
}

/// The first fourteen bytes of an enemy's statistics: its identity, drop,
/// attack and moves.
pub open spec fn enemy_head_bytes(e: EnemyStats) -> Seq<u8> {
    u16_le(e.digimon_id) + u16_le(e.droppable_item) + u16_le(e.drop_rate) + u16_le(e.some_index)
        + u16_le(e.attack) + u16_le(e.move_1) + u16_le(e.move_2)
}

/// The next twenty-four bytes: base stats and resistances.
pub open spec fn enemy_stat_bytes(e: EnemyStats) -> Seq<u8> {
    i16_le(e.str) + i16_le(e.def) + i16_le(e.spt) + i16_le(e.wis) + i16_le(e.spd) + i16_le(e.fir_res)
        + i16_le(e.wtr_res) + i16_le(e.ice_res) + i16_le(e.wnd_res) + i16_le(e.thd_res) + i16_le(
        e.mch_res,
    ) + i16_le(e.drk_res)
}

/// The next twelve bytes: status rates and type.
pub open spec fn enemy_rate_bytes(e: EnemyStats) -> Seq<u8> {
    u16_le(e.psn_rate) + u16_le(e.par_rate) + u16_le(e.cnf_rate) + u16_le(e.slp_rate) + u16_le(
        e.ko_rate,
    ) + u16_le(e.digimon_type)
}

/// The last twenty bytes: the action rules.
pub open spec fn enemy_moveset_bytes(e: EnemyStats) -> Seq<u8> {
    moveset_bytes(e.moveset_1) + moveset_bytes(e.moveset_2) + moveset_bytes(e.moveset_3) + moveset_bytes(
        e.moveset_4,
    ) + moveset_bytes(e.counter_moveset)
}

/// The bytes of an enemy's statistics.
pub open spec fn enemy_bytes(e: EnemyStats) -> Seq<u8> {
    enemy_head_bytes(e) + enemy_stat_bytes(e) + enemy_rate_bytes(e) + enemy_moveset_bytes(e)
}

/// The enemy statistics stored at `pos`.
pub open spec fn enemy_at(s: Seq<u8>, pos: int) -> EnemyStats {
    EnemyStats {
        digimon_id: u16_at(s, pos) as u16,
        droppable_item: u16_at(s, pos + 2) as u16,
        drop_rate: u16_at(s, pos + 4) as u16,
        some_index: u16_at(s, pos + 6) as u16,
        attack: u16_at(s, pos + 8) as u16,
        move_1: u16_at(s, pos + 10) as u16,
        move_2: u16_at(s, pos + 12) as u16,
        str: i16_at(s, pos + 14),
        def: i16_at(s, pos + 16),
        spt: i16_at(s, pos + 18),
        wis: i16_at(s, pos + 20),
        spd: i16_at(s, pos + 22),
        fir_res: i16_at(s, pos + 24),
        wtr_res: i16_at(s, pos + 26),
        ice_res: i16_at(s, pos + 28),
        wnd_res: i16_at(s, pos + 30),
        thd_res: i16_at(s, pos + 32),
        mch_res: i16_at(s, pos + 34),
        drk_res: i16_at(s, pos + 36),
        psn_rate: u16_at(s, pos + 38) as u16,
        par_rate: u16_at(s, pos + 40) as u16,
        cnf_rate: u16_at(s, pos + 42) as u16,
        slp_rate: u16_at(s, pos + 44) as u16,
        ko_rate: u16_at(s, pos + 46) as u16,
        digimon_type: u16_at(s, pos + 48) as u16,
        moveset_1: moveset_at(s, pos + 50),
        moveset_2: moveset_at(s, pos + 54),
        moveset_3: moveset_at(s, pos + 58),
        moveset_4: moveset_at(s, pos + 62),
        counter_moveset: moveset_at(s, pos + 66),
    }
}

/// The bytes of a list of `u16`s, one after another.
pub open spec fn u16s_le(t: Seq<u16>) -> Seq<u8>
    decreases t.len(),
{
    if t.len() == 0 {
        Seq::empty()
    } else {
        u16s_le(t.drop_last()) + u16_le(t.last())
    }
}

/// The `n` little-endian `u16`s stored from `pos` on.
pub open spec fn u16s_at(s: Seq<u8>, pos: int, n: int) -> Seq<u16> {
    Seq::new(n as nat, |i: int| u16_at(s, pos + 2 * i) as u16)
}

/// The first thirty bytes of a form's record: its identity, stats,
/// resistances and attack.
pub open spec fn form_head_bytes(d: DigivolutionData) -> Seq<u8> {
    u16_le(d.digimon_id) + u16_le(d.str) + u16_le(d.def) + u16_le(d.spt) + u16_le(d.wis) + u16_le(d.spd)
        + u16_le(d.chr) + u16_le(d.fir_res) + u16_le(d.wtr_res) + u16_le(d.ice_res) + u16_le(d.wnd_res)
        + u16_le(d.thd_res) + u16_le(d.mch_res) + u16_le(d.drk_res) + u16_le(d.attack)
}

/// The signature and digivolution moves and the status rates.
pub open spec fn form_move_bytes(d: DigivolutionData) -> Seq<u8> {
    u16_le(d.ori_tech) + u16_le(d.dv_tech) + seq![d.psn_rate, d.par_rate, d.cnf_rate, d.slp_rate, d.ko_rate]
}

/// The growth bytes between the learning levels and the affinities.
pub open spec fn form_growth_bytes(d: DigivolutionData) -> Seq<u8> {
    seq![d.unk0, d.dv, d.unk1, d.exp_modifier] + u16_le(d.unk) + seq![d.hp_modifier, d.mp_modifier]
}

/// The bytes of a form's record; its lists are written whole.
pub open spec fn form_bytes(d: DigivolutionData) -> Seq<u8> {
    form_head_bytes(d) + u16s_le(d.tech@) + form_move_bytes(d) + d.tech_learn_level@ + d.tech_load_level@
        + form_growth_bytes(d) + d.stat_offsets@ + d.res_offsets@ + d.unk_arr_1@
}

/// The lists of a form's record have the lengths that it is read with.
pub open spec fn form_lists_sized(d: DigivolutionData) -> bool {
    &&& d.tech@.len() == 5
    &&& d.tech_learn_level@.len() == 5
    &&& d.tech_load_level@.len() == 5
    &&& d.stat_offsets@.len() == 6
    &&& d.res_offsets@.len() == 7
    &&& d.unk_arr_1@.len() == 8
}

/// `d` is the form's record stored at `pos`: eighty-eight bytes, with five
/// moves, five learning and five loading levels, six stat affinities,
/// seven resistance affinities and eight more bytes.
pub open spec fn form_read(s: Seq<u8>, pos: int, d: DigivolutionData) -> bool {
    &&& d.digimon_id == u16_at(s, pos)
    &&& d.str == u16_at(s, pos + 2)
    &&& d.def == u16_at(s, pos + 4)
    &&& d.spt == u16_at(s, pos + 6)
    &&& d.wis == u16_at(s, pos + 8)
    &&& d.spd == u16_at(s, pos + 10)
    &&& d.chr == u16_at(s, pos + 12)
    &&& d.fir_res == u16_at(s, pos + 14)
    &&& d.wtr_res == u16_at(s, pos + 16)
    &&& d.ice_res == u16_at(s, pos + 18)
    &&& d.wnd_res == u16_at(s, pos + 20)
    &&& d.thd_res == u16_at(s, pos + 22)
    &&& d.mch_res == u16_at(s, pos + 24)
    &&& d.drk_res == u16_at(s, pos + 26)
    &&& d.attack == u16_at(s, pos + 28)
    &&& d.tech@ == u16s_at(s, pos + 30, 5)
    &&& d.ori_tech == u16_at(s, pos + 40)
    &&& d.dv_tech == u16_at(s, pos + 42)
    &&& d.psn_rate == s[pos + 44]
    &&& d.par_rate == s[pos + 45]
    &&& d.cnf_rate == s[pos + 46]
    &&& d.slp_rate == s[pos + 47]
    &&& d.ko_rate == s[pos + 48]
    &&& d.tech_learn_level@ == s.subrange(pos + 49, pos + 54)
    &&& d.tech_load_level@ == s.subrange(pos + 54, pos + 59)
    &&& d.unk0 == s[pos + 59]
    &&& d.dv == s[pos + 60]
    &&& d.unk1 == s[pos + 61]
    &&& d.exp_modifier == s[pos + 62]
    &&& d.unk == u16_at(s, pos + 63)
    &&& d.hp_modifier == s[pos + 65]
    &&& d.mp_modifier == s[pos + 66]
    &&& d.stat_offsets@ == s.subrange(pos + 67, pos + 73)
    &&& d.res_offsets@ == s.subrange(pos + 73, pos + 80)
    &&& d.unk_arr_1@ == s.subrange(pos + 80, pos + 88)
}

/// The bytes of a list of digivolution conditions, one after another.
pub open spec fn conditions_le(cs: Seq<DigivolutionCondition>) -> Seq<u8>
    decreases cs.len(),
{
    if cs.len() == 0 {
        Seq::empty()
    } else {
        conditions_le(cs.drop_last()) + condition_bytes(cs.last())
    }
}

/// The `n` digivolution conditions stored from `pos` on.
pub open spec fn conditions_at(s: Seq<u8>, pos: int, n: int) -> Seq<DigivolutionCondition> {
    Seq::new(n as nat, |i: int| condition_at(s, pos + 16 * i))
}

/// How many digivolution conditions a rookie's list holds.
pub const CONDITION_COUNT: usize = 44;

impl Moveset {
    /// Reads the action rule stored at `pos`.
    pub fn read(data: &[u8], pos: usize) -> (m: Moveset)
        requires
            pos + 4 <= data.len(),
        ensures
            m == moveset_at(data@, pos as int),
    {
        Moveset { action: data[pos], comparator: data[pos + 1], value: read_u16(data, pos + 2) }
    }

    /// Appends the action rule's bytes.
    pub fn write(&self, out: &mut Vec<u8>)
        ensures
            final(out)@ == old(out)@ + moveset_bytes(*self),
    {
        out.push(self.action);
        out.push(self.comparator);
        push_u16(out, self.value);
        assert(out@ =~= old(out)@ + moveset_bytes(*self));
    }
}

impl MoveData {
    /// Reads the move stored at `pos`.
    pub fn read(data: &[u8], pos: usize) -> (m: MoveData)
        requires
            pos + 18 <= data.len(),
        ensures
            m == move_at(data@, pos as int),
    {
        MoveData {
            mp: read_u16(data, pos),
            power: read_u16(data, pos + 2),
            unk1: read_u16(data, pos + 4),
            accuracy: data[pos + 6],
            unk2: data[pos + 7],
            boost: data[pos + 8],
            effective_against: data[pos + 9],
            hit_effect: data[pos + 10],
            effect_rate: data[pos + 11],
            effect_value: data[pos + 12],
            unk3: data[pos + 13],
            unk4: read_u16(data, pos + 14),
            move_type: data[pos + 16],
            freq: data[pos + 17],
        }
    }

    /// Appends the move's bytes.
    pub fn write(&self, out: &mut Vec<u8>)
        ensures
            final(out)@ == old(out)@ + move_bytes(*self),
    {
        push_u16(out, self.mp);
        push_u16(out, self.power);
        push_u16(out, self.unk1);
        out.push(self.accuracy);
        out.push(self.unk2);
        out.push(self.boost);
        out.push(self.effective_against);
        out.push(self.hit_effect);
        out.push(self.effect_rate);
        out.push(self.effect_value);
        out.push(self.unk3);
        push_u16(out, self.unk4);
        out.push(self.move_type);
        out.push(self.freq);
        assert(out@ =~= old(out)@ + move_bytes(*self));
    }
}

impl DigivolutionCondition {
    /// Reads the digivolution condition stored at `pos`.
    pub fn read(data: &[u8], pos: usize) -> (c: DigivolutionCondition)
        requires
            pos + 16 <= data.len(),
        ensures
            c == condition_at(data@, pos as int),
    {
        DigivolutionCondition {
            index: read_u32(data, pos),
            dv_index_1: read_u16(data, pos + 4),
            rq_level_1: read_u16(data, pos + 6),
            dv_index_2: read_u16(data, pos + 8),
            rq_level_2: read_u16(data, pos + 10),
            rq_type: read_u16(data, pos + 12),
            rq: read_u16(data, pos + 14),
        }
    }

    /// Appends the digivolution condition's bytes.
    pub fn write(&self, out: &mut Vec<u8>)
        ensures
            final(out)@ == old(out)@ + condition_bytes(*self),
    {
        push_u32(out, self.index);
        push_u16(out, self.dv_index_1);
        push_u16(out, self.rq_level_1);
        push_u16(out, self.dv_index_2);
        push_u16(out, self.rq_level_2);
        push_u16(out, self.rq_type);
        push_u16(out, self.rq);
        assert(out@ =~= old(out)@ + condition_bytes(*self));
    }
}

impl EnemyStats {
    /// Reads the enemy statistics stored at `pos`.
    pub fn read(data: &[u8], pos: usize) -> (e: EnemyStats)
        requires
            pos + 70 <= data.len(),
        ensures
            e == enemy_at(data@, pos as int),
    {
        EnemyStats {
            digimon_id: read_u16(data, pos),
            droppable_item: read_u16(data, pos + 2),
            drop_rate: read_u16(data, pos + 4),
            some_index: read_u16(data, pos + 6),
            attack: read_u16(data, pos + 8),
            move_1: read_u16(data, pos + 10),
            move_2: read_u16(data, pos + 12),
            str: read_i16(data, pos + 14),
            def: read_i16(data, pos + 16),
            spt: read_i16(data, pos + 18),
            wis: read_i16(data, pos + 20),
            spd: read_i16(data, pos + 22),
            fir_res: read_i16(data, pos + 24),
            wtr_res: read_i16(data, pos + 26),
            ice_res: read_i16(data, pos + 28),
            wnd_res: read_i16(data, pos + 30),
            thd_res: read_i16(data, pos + 32),
            mch_res: read_i16(data, pos + 34),
            drk_res: read_i16(data, pos + 36),
            psn_rate: read_u16(data, pos + 38),
            par_rate: read_u16(data, pos + 40),
            cnf_rate: read_u16(data, pos + 42),
            slp_rate: read_u16(data, pos + 44),
            ko_rate: read_u16(data, pos + 46),
            digimon_type: read_u16(data, pos + 48),
            moveset_1: Moveset::read(data, pos + 50),
            moveset_2: Moveset::read(data, pos + 54),
            moveset_3: Moveset::read(data, pos + 58),
            moveset_4: Moveset::read(data, pos + 62),
            counter_moveset: Moveset::read(data, pos + 66),
        }
    }

    /// Appends the enemy statistics' bytes.
    pub fn write(&self, out: &mut Vec<u8>)
        ensures
            final(out)@ == old(out)@ + enemy_bytes(*self),
    {
        let ghost start = out@;
        push_u16(out, self.digimon_id);
        push_u16(out, self.droppable_item);
        push_u16(out, self.drop_rate);
        push_u16(out, self.some_index);
        push_u16(out, self.attack);
        push_u16(out, self.move_1);
        push_u16(out, self.move_2);
        assert(out@ =~= start + enemy_head_bytes(*self));
        let ghost head = out@;
        push_i16(out, self.str);
        push_i16(out, self.def);
        push_i16(out, self.spt);
        push_i16(out, self.wis);
        push_i16(out, self.spd);
        push_i16(out, self.fir_res);
        push_i16(out, self.wtr_res);
        push_i16(out, self.ice_res);
        push_i16(out, self.wnd_res);
        push_i16(out, self.thd_res);
        push_i16(out, self.mch_res);
        push_i16(out, self.drk_res);
        assert(out@ =~= head + enemy_stat_bytes(*self));
        let ghost stats = out@;
        push_u16(out, self.psn_rate);
        push_u16(out, self.par_rate);
        push_u16(out, self.cnf_rate);
        push_u16(out, self.slp_rate);
        push_u16(out, self.ko_rate);
        push_u16(out, self.digimon_type);
        assert(out@ =~= stats + enemy_rate_bytes(*self));
        let ghost rates = out@;
        self.moveset_1.write(out);
        self.moveset_2.write(out);
        self.moveset_3.write(out);
        self.moveset_4.write(out);
        self.counter_moveset.write(out);
        assert(out@ =~= rates + enemy_moveset_bytes(*self));
        assert(out@ =~= start + enemy_bytes(*self));
    }
}

impl DigivolutionData {
    /// Reads the form's record stored at `pos`.
    pub fn read(data: &[u8], pos: usize) -> (d: DigivolutionData)
        requires
            pos + 88 <= data.len(),
        ensures
            form_read(data@, pos as int, d),
            form_lists_sized(d),
    {
        DigivolutionData {
            digimon_id: read_u16(data, pos),
            str: read_u16(data, pos + 2),
            def: read_u16(data, pos + 4),
            spt: read_u16(data, pos + 6),
            wis: read_u16(data, pos + 8),
            spd: read_u16(data, pos + 10),
            chr: read_u16(data, pos + 12),
            fir_res: read_u16(data, pos + 14),
            wtr_res: read_u16(data, pos + 16),
            ice_res: read_u16(data, pos + 18),
            wnd_res: read_u16(data, pos + 20),
            thd_res: read_u16(data, pos + 22),
            mch_res: read_u16(data, pos + 24),
            drk_res: read_u16(data, pos + 26),
            attack: read_u16(data, pos + 28),
            tech: read_u16s(data, pos + 30, 5),
            ori_tech: read_u16(data, pos + 40),
            dv_tech: read_u16(data, pos + 42),
            psn_rate: data[pos + 44],
            par_rate: data[pos + 45],
            cnf_rate: data[pos + 46],
            slp_rate: data[pos + 47],
            ko_rate: data[pos + 48],
            tech_learn_level: read_bytes(data, pos + 49, pos + 54),
            tech_load_level: read_bytes(data, pos + 54, pos + 59),
            unk0: data[pos + 59],
            dv: data[pos + 60],
            unk1: data[pos + 61],
            exp_modifier: data[pos + 62],
            unk: read_u16(data, pos + 63),
            hp_modifier: data[pos + 65],
            mp_modifier: data[pos + 66],
            stat_offsets: read_bytes(data, pos + 67, pos + 73),
            res_offsets: read_bytes(data, pos + 73, pos + 80),
            unk_arr_1: read_bytes(data, pos + 80, pos + 88),
        }
    }

    /// Appends the form's record; its lists are written whole.
    pub fn write(&self, out: &mut Vec<u8>)
        ensures
            final(out)@ == old(out)@ + form_bytes(*self),
    {
        let ghost start = out@;
        push_u16(out, self.digimon_id);
        push_u16(out, self.str);
        push_u16(out, self.def);
        push_u16(out, self.spt);
        push_u16(out, self.wis);
        push_u16(out, self.spd);
        push_u16(out, self.chr);
        push_u16(out, self.fir_res);
        push_u16(out, self.wtr_res);
        push_u16(out, self.ice_res);
        push_u16(out, self.wnd_res);
        push_u16(out, self.thd_res);
        push_u16(out, self.mch_res);
        push_u16(out, self.drk_res);
        push_u16(out, self.attack);
        assert(out@ =~= start + form_head_bytes(*self));
        let ghost head = out@;
        push_u16s(out, &self.tech);
        let ghost techs = out@;
        push_u16(out, self.ori_tech);
        push_u16(out, self.dv_tech);
        out.push(self.psn_rate);
        out.push(self.par_rate);
        out.push(self.cnf_rate);
        out.push(self.slp_rate);
        out.push(self.ko_rate);
        assert(out@ =~= techs + form_move_bytes(*self));
        push_bytes(out, &self.tech_learn_level);
        push_bytes(out, &self.tech_load_level);
        let ghost levels = out@;
        out.push(self.unk0);
        out.push(self.dv);
        out.push(self.unk1);
        out.push(self.exp_modifier);
        push_u16(out, self.unk);
        out.push(self.hp_modifier);
        out.push(self.mp_modifier);
        assert(out@ =~= levels + form_growth_bytes(*self));
        push_bytes(out, &self.stat_offsets);
        push_bytes(out, &self.res_offsets);
        push_bytes(out, &self.unk_arr_1);
        assert(out@ =~= start + form_bytes(*self));
    }
}

impl DigivolutionConditions {
    /// Reads the rookie's digivolution conditions stored at `pos`.
    pub fn read(data: &[u8], pos: usize) -> (cs: DigivolutionConditions)
        requires
            pos + 16 * CONDITION_COUNT <= data.len(),
        ensures
            cs.conditions@ == conditions_at(data@, pos as int, CONDITION_COUNT as int),
    {
        let mut conditions: Vec<DigivolutionCondition> = Vec::new();
        let mut i: usize = 0;
        while i < CONDITION_COUNT
            invariant
                i <= CONDITION_COUNT,
                pos + 16 * CONDITION_COUNT <= data.len(),
                conditions@ == conditions_at(data@, pos as int, i as int),
            decreases CONDITION_COUNT - i,
        {
            conditions.push(DigivolutionCondition::read(data, pos + 16 * i));
            i += 1;
            assert(conditions@ =~= conditions_at(data@, pos as int, i as int));
        }
        DigivolutionConditions { conditions }
    }

    /// Appends the conditions' bytes; the list is written whole.
    pub fn write(&self, out: &mut Vec<u8>)
        ensures
            final(out)@ == old(out)@ + conditions_le(self.conditions@),
    {
        let mut i: usize = 0;
        while i < self.conditions.len()
            invariant
                i <= self.conditions.len(),
                out@ == old(out)@ + conditions_le(self.conditions@.take(i as int)),
            decreases self.conditions.len() - i,
        {
            self.conditions[i].write(out);
            assert(self.conditions@.take(i + 1).drop_last() =~= self.conditions@.take(i as int));
            i += 1;
            assert(out@ =~= old(out)@ + conditions_le(self.conditions@.take(i as int)));
        }
        assert(self.conditions@.take(self.conditions.len() as int) =~= self.conditions@);
    }
}

impl Pointer {
    /// Reads the pointer stored at `pos`.
    pub fn read(data: &[u8], pos: usize) -> (p: Pointer)
        requires
            pos + 4 <= data.len(),
        ensures
            p == pointer_at(data@, pos as int),
    {
        Pointer { value: read_u32(data, pos) }
    }

    /// Appends the pointer's bytes.
    pub fn write(&self, out: &mut Vec<u8>)
        ensures
            final(out)@ == old(out)@ + pointer_bytes(*self),
    {
        push_u32(out, self.value);
    }
}

impl Shop {
    /// Reads the shop stored at `pos`.
    pub fn read(data: &[u8], pos: usize) -> (sh: Shop)
        requires
            pos + 8 <= data.len(),
        ensures
            sh == shop_at(data@, pos as int),
    {
        Shop { item_count: read_u32(data, pos), items: Pointer::read(data, pos + 4) }
    }

    /// Appends the shop's bytes.
    pub fn write(&self, out: &mut Vec<u8>)
        ensures
            final(out)@ == old(out)@ + shop_bytes(*self),
    {
        push_u32(out, self.item_count);
        self.items.write(out);
        assert(out@ =~= old(out)@ + shop_bytes(*self));
    }
}

impl ItemShopData {
    /// Reads the item shop data stored at `pos`.
    pub fn read(data: &[u8], pos: usize) -> (d: ItemShopData)
        requires
            pos + 12 <= data.len(),
        ensures
            d == item_shop_at(data@, pos as int),
    {
        ItemShopData {
            unk_ptr: Pointer::read(data, pos),
            buy_price: read_u16(data, pos + 4),
            sell_price: read_u16(data, pos + 6),
            unk: read_u32(data, pos + 8),
        }
    }

    /// Appends the item shop data's bytes.
    pub fn write(&self, out: &mut Vec<u8>)
        ensures
            final(out)@ == old(out)@ + item_shop_bytes(*self),
    {
        self.unk_ptr.write(out);
        push_u16(out, self.buy_price);
        push_u16(out, self.sell_price);
        push_u32(out, self.unk);
        assert(out@ =~= old(out)@ + item_shop_bytes(*self));
    }
}

impl EncounterData {
    /// Reads the encounter stored at `pos`.
    pub fn read(data: &[u8], pos: usize) -> (e: EncounterData)
        requires
            pos + 12 <= data.len(),
        ensures
            e == encounter_at(data@, pos as int),
    {
        EncounterData {
            digimon_id: read_u32(data, pos),
            lv: read_u16(data, pos + 4),
            max_hp: read_u16(data, pos + 6),
            max_mp: read_u16(data, pos + 8),
            multiplier: read_u16(data, pos + 10),
        }
    }

    /// Appends the encounter's bytes.
    pub fn write(&self, out: &mut Vec<u8>)
        ensures
            final(out)@ == old(out)@ + encounter_bytes(*self),
    {
        push_u32(out, self.digimon_id);
        push_u16(out, self.lv);
        push_u16(out, self.max_hp);
        push_u16(out, self.max_mp);
        push_u16(out, self.multiplier);
        assert(out@ =~= old(out)@ + encounter_bytes(*self));
    }
}

/// A written action rule is four bytes long and reads back as itself.
pub proof fn lemma_moveset_roundtrip(m: Moveset)
    ensures
        moveset_bytes(m).len() == 4,
        moveset_at(moveset_bytes(m), 0) == m,
{
    lemma_u16_le(m.value);
}

/// A written move is eighteen bytes long and reads back as itself.
pub proof fn lemma_move_roundtrip(m: MoveData)
    ensures
        move_bytes(m).len() == 18,
        move_at(move_bytes(m), 0) == m,
{
    lemma_u16_le(m.mp);
    lemma_u16_le(m.power);
    lemma_u16_le(m.unk1);
    lemma_u16_le(m.unk4);
}

/// A written digivolution condition is sixteen bytes long and reads back
/// as itself.
pub proof fn lemma_condition_roundtrip(c: DigivolutionCondition)
    ensures
        condition_bytes(c).len() == 16,
        condition_at(condition_bytes(c), 0) == c,
{
    lemma_u32_le(c.index);
    lemma_u16_le(c.dv_index_1);
    lemma_u16_le(c.rq_level_1);
    lemma_u16_le(c.dv_index_2);
    lemma_u16_le(c.rq_level_2);
    lemma_u16_le(c.rq_type);
    lemma_u16_le(c.rq);
}

/// The first part of written enemy statistics decodes to its fields.
proof fn lemma_enemy_head(e: EnemyStats)
    ensures
        enemy_head_bytes(e).len() == 14,
        u16_at(enemy_head_bytes(e), 0) == e.digimon_id,
        u16_at(enemy_head_bytes(e), 2) == e.droppable_item,
        u16_at(enemy_head_bytes(e), 4) == e.drop_rate,
        u16_at(enemy_head_bytes(e), 6) == e.some_index,
        u16_at(enemy_head_bytes(e), 8) == e.attack,
        u16_at(enemy_head_bytes(e), 10) == e.move_1,
        u16_at(enemy_head_bytes(e), 12) == e.move_2,
{
    lemma_u16_le(e.digimon_id);
    lemma_u16_le(e.droppable_item);
    lemma_u16_le(e.drop_rate);
    lemma_u16_le(e.some_index);
    lemma_u16_le(e.attack);
    lemma_u16_le(e.move_1);
    lemma_u16_le(e.move_2);
}

/// The second part of written enemy statistics decodes to its fields.
proof fn lemma_enemy_stats(e: EnemyStats)
    ensures
        enemy_stat_bytes(e).len() == 24,
        i16_at(enemy_stat_bytes(e), 0) == e.str,
        i16_at(enemy_stat_bytes(e), 2) == e.def,
        i16_at(enemy_stat_bytes(e), 4) == e.spt,
        i16_at(enemy_stat_bytes(e), 6) == e.wis,
        i16_at(enemy_stat_bytes(e), 8) == e.spd,
        i16_at(enemy_stat_bytes(e), 10) == e.fir_res,
        i16_at(enemy_stat_bytes(e), 12) == e.wtr_res,
        i16_at(enemy_stat_bytes(e), 14) == e.ice_res,
        i16_at(enemy_stat_bytes(e), 16) == e.wnd_res,
        i16_at(enemy_stat_bytes(e), 18) == e.thd_res,
        i16_at(enemy_stat_bytes(e), 20) == e.mch_res,
        i16_at(enemy_stat_bytes(e), 22) == e.drk_res,
{
    lemma_i16_le(e.str);
    lemma_i16_le(e.def);
    lemma_i16_le(e.spt);
    lemma_i16_le(e.wis);
    lemma_i16_le(e.spd);
    lemma_i16_le(e.fir_res);
    lemma_i16_le(e.wtr_res);
    lemma_i16_le(e.ice_res);
    lemma_i16_le(e.wnd_res);
    lemma_i16_le(e.thd_res);
    lemma_i16_le(e.mch_res);
    lemma_i16_le(e.drk_res);
}

/// The third part of written enemy statistics decodes to its fields.
proof fn lemma_enemy_rates(e: EnemyStats)
    ensures
        enemy_rate_bytes(e).len() == 12,
        u16_at(enemy_rate_bytes(e), 0) == e.psn_rate,
        u16_at(enemy_rate_bytes(e), 2) == e.par_rate,
        u16_at(enemy_rate_bytes(e), 4) == e.cnf_rate,
        u16_at(enemy_rate_bytes(e), 6) == e.slp_rate,
        u16_at(enemy_rate_bytes(e), 8) == e.ko_rate,
        u16_at(enemy_rate_bytes(e), 10) == e.digimon_type,
{
    lemma_u16_le(e.psn_rate);
    lemma_u16_le(e.par_rate);
    lemma_u16_le(e.cnf_rate);
    lemma_u16_le(e.slp_rate);
    lemma_u16_le(e.ko_rate);
    lemma_u16_le(e.digimon_type);
}

/// The last part of written enemy statistics decodes to its action rules.
proof fn lemma_enemy_movesets(e: EnemyStats)
    ensures
        enemy_moveset_bytes(e).len() == 20,
        moveset_at(enemy_moveset_bytes(e), 0) == e.moveset_1,
        moveset_at(enemy_moveset_bytes(e), 4) == e.moveset_2,
        moveset_at(enemy_moveset_bytes(e), 8) == e.moveset_3,
        moveset_at(enemy_moveset_bytes(e), 12) == e.moveset_4,
        moveset_at(enemy_moveset_bytes(e), 16) == e.counter_moveset,
{
    lemma_moveset_roundtrip(e.moveset_1);
    lemma_moveset_roundtrip(e.moveset_2);
    lemma_moveset_roundtrip(e.moveset_3);
    lemma_moveset_roundtrip(e.moveset_4);
    lemma_moveset_roundtrip(e.counter_moveset);
}

/// Written enemy statistics are seventy bytes long and read back as
/// themselves.
pub proof fn lemma_enemy_roundtrip(e: EnemyStats)
    ensures
        enemy_bytes(e).len() == 70,
        enemy_at(enemy_bytes(e), 0) == e,
{
    let b = enemy_bytes(e);
    let h = enemy_head_bytes(e);
    let st = enemy_stat_bytes(e);
    let r = enemy_rate_bytes(e);
    let m = enemy_moveset_bytes(e);
    lemma_enemy_head(e);
    lemma_enemy_stats(e);
    lemma_enemy_rates(e);
    lemma_enemy_movesets(e);
    assert forall|k: int| 0 <= k < 14 implies #[trigger] b[k] == h[k] by {}
    assert forall|k: int| 0 <= k < 24 implies #[trigger] b[14 + k] == st[k] by {}
    assert forall|k: int| 0 <= k < 12 implies #[trigger] b[38 + k] == r[k] by {}
    assert forall|k: int| 0 <= k < 20 implies #[trigger] b[50 + k] == m[k] by {}
}

/// The bytes of a list of `u16`s decode to the list.
proof fn lemma_u16s_le(t: Seq<u16>)
    ensures
        u16s_le(t).len() == 2 * t.len(),
        forall|i: int| 0 <= i < t.len() ==> u16_at(u16s_le(t), 2 * i) == #[trigger] t[i],
    decreases t.len(),
{
    if t.len() > 0 {
        let init = t.drop_last();
        lemma_u16s_le(init);
        lemma_u16_le(t.last());
        let b = u16s_le(t);
        assert forall|i: int| 0 <= i < t.len() implies u16_at(b, 2 * i) == #[trigger] t[i] by {
            if i < t.len() - 1 {
                assert(init[i] == t[i]);
                assert(u16_at(u16s_le(init), 2 * i) == init[i]);
            }
        }
    }
}

/// The parts of a written form's record decode to its fields.
proof fn lemma_form_parts(d: DigivolutionData)
    ensures
        form_head_bytes(d).len() == 30,
        form_move_bytes(d).len() == 9,
        form_growth_bytes(d).len() == 8,
        u16_at(form_head_bytes(d), 0) == d.digimon_id,
        u16_at(form_head_bytes(d), 2) == d.str,
        u16_at(form_head_bytes(d), 4) == d.def,
        u16_at(form_head_bytes(d), 6) == d.spt,
        u16_at(form_head_bytes(d), 8) == d.wis,
        u16_at(form_head_bytes(d), 10) == d.spd,
        u16_at(form_head_bytes(d), 12) == d.chr,
        u16_at(form_head_bytes(d), 14) == d.fir_res,
        u16_at(form_head_bytes(d), 16) == d.wtr_res,
        u16_at(form_head_bytes(d), 18) == d.ice_res,
        u16_at(form_head_bytes(d), 20) == d.wnd_res,
        u16_at(form_head_bytes(d), 22) == d.thd_res,
        u16_at(form_head_bytes(d), 24) == d.mch_res,
        u16_at(form_head_bytes(d), 26) == d.drk_res,
        u16_at(form_head_bytes(d), 28) == d.attack,
        u16_at(form_move_bytes(d), 0) == d.ori_tech,
        u16_at(form_move_bytes(d), 2) == d.dv_tech,
        u16_at(form_growth_bytes(d), 4) == d.unk,
{
    lemma_u16_le(d.digimon_id);
    lemma_u16_le(d.str);
    lemma_u16_le(d.def);
    lemma_u16_le(d.spt);
    lemma_u16_le(d.wis);
    lemma_u16_le(d.spd);
    lemma_u16_le(d.chr);
    lemma_u16_le(d.fir_res);
    lemma_u16_le(d.wtr_res);
    lemma_u16_le(d.ice_res);
    lemma_u16_le(d.wnd_res);
    lemma_u16_le(d.thd_res);
    lemma_u16_le(d.mch_res);
    lemma_u16_le(d.drk_res);
    lemma_u16_le(d.attack);
    lemma_u16_le(d.ori_tech);
    lemma_u16_le(d.dv_tech);
    lemma_u16_le(d.unk);
}

/// A written form's record whose lists have the lengths it is read with
/// is eighty-eight bytes long and reads back as itself.
pub proof fn lemma_form_roundtrip(d: DigivolutionData)
    requires
        form_lists_sized(d),
    ensures
        form_bytes(d).len() == 88,
        form_read(form_bytes(d), 0, d),
{
    let b = form_bytes(d);
    let h = form_head_bytes(d);
    let t = u16s_le(d.tech@);
    let mv = form_move_bytes(d);
    let g = form_growth_bytes(d);
    lemma_form_parts(d);
    lemma_u16s_le(d.tech@);
    assert forall|k: int| 0 <= k < 30 implies #[trigger] b[k] == h[k] by {}
    assert forall|k: int| 0 <= k < 10 implies #[trigger] b[30 + k] == t[k] by {}
    assert forall|k: int| 0 <= k < 9 implies #[trigger] b[40 + k] == mv[k] by {}
    assert forall|k: int| 0 <= k < 8 implies #[trigger] b[59 + k] == g[k] by {}
    assert(b.subrange(49, 54) =~= d.tech_learn_level@);
    assert(b.subrange(54, 59) =~= d.tech_load_level@);
    assert(b.subrange(67, 73) =~= d.stat_offsets@);
    assert(b.subrange(73, 80) =~= d.res_offsets@);
    assert(b.subrange(80, 88) =~= d.unk_arr_1@);
    assert forall|i: int| 0 <= i < 5 implies u16s_at(b, 30, 5)[i] == #[trigger] d.tech@[i] by {
        assert(u16_at(t, 2 * i) == d.tech@[i]);
    }
    assert(u16s_at(b, 30, 5) =~= d.tech@);
}


/// A written list of digivolution conditions reads back as itself, sixteen
/// bytes per condition.
pub proof fn lemma_conditions_roundtrip(cs: Seq<DigivolutionCondition>)
    ensures
        conditions_le(cs).len() == 16 * cs.len(),
        conditions_at(conditions_le(cs), 0, cs.len() as int) == cs,
    decreases cs.len(),
{
    if cs.len() > 0 {
        let init = cs.drop_last();
        lemma_conditions_roundtrip(init);
        lemma_condition_roundtrip(cs.last());
        let b = conditions_le(cs);
        let a = conditions_le(init);
        let last = condition_bytes(cs.last());
        assert forall|i: int| 0 <= i < cs.len() implies #[trigger] conditions_at(b, 0, cs.len() as int)[i]
            == cs[i] by {
            if i < cs.len() - 1 {
                assert(conditions_at(a, 0, init.len() as int)[i] == init[i]);
                assert forall|k: int| 0 <= k < 16 implies #[trigger] b[16 * i + k] == a[16 * i + k] by {}
            } else {
                assert forall|k: int| 0 <= k < 16 implies #[trigger] b[16 * i + k] == last[k] by {}
            }
        }
        assert(conditions_at(b, 0, cs.len() as int) =~= cs);
    }
}


/// A written shop is eight bytes long and reads back as itself.
pub proof fn lemma_shop_roundtrip(sh: Shop)
    ensures
        shop_bytes(sh).len() == 8,
        shop_at(shop_bytes(sh), 0) == sh,
{
    lemma_u32_le(sh.item_count);
    lemma_u32_le(sh.items.value);
    let b = shop_bytes(sh);
    assert(b.subrange(4, 8) =~= u32_le(sh.items.value));
}

/// Written item shop data is twelve bytes long and reads back as itself.
pub proof fn lemma_item_shop_roundtrip(d: ItemShopData)
    ensures
        item_shop_bytes(d).len() == 12,
        item_shop_at(item_shop_bytes(d), 0) == d,
{
    lemma_u32_le(d.unk_ptr.value);
    lemma_u16_le(d.buy_price);
    lemma_u16_le(d.sell_price);
    lemma_u32_le(d.unk);
    let b = item_shop_bytes(d);
    assert(b.subrange(8, 12) =~= u32_le(d.unk));
}

/// A written encounter is twelve bytes long and reads back as itself.
pub proof fn lemma_encounter_roundtrip(e: EncounterData)
    ensures
        encounter_bytes(e).len() == 12,
        encounter_at(encounter_bytes(e), 0) == e,
{
    lemma_u32_le(e.digimon_id);
    lemma_u16_le(e.lv);
    lemma_u16_le(e.max_hp);
    lemma_u16_le(e.max_mp);
    lemma_u16_le(e.multiplier);
}

} // verus!
