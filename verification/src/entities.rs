//! The entities of a map and their scripts: where the item boxes are and
//! which items they give.

use crate::structs::Pointer;
use vstd::prelude::*;

verus! {

/// An entity placed on a map: its sprite and where its logic starts.
#[derive(Clone, Copy, Debug)]
pub struct Entity {
    pub sprite: u16,
    pub logic: Pointer,
}

/// A piece of an entity's logic: its script, its conditions and the text
/// it shows.
#[derive(Clone, Copy, Debug)]
pub struct EntityLogic {
    pub script: Pointer,
    pub conditions: Pointer,
    pub text_index: u32,
}

/// A step of a script: its type and argument packed in one word, and
/// whether it is the step that ends the script.
#[derive(Clone, Copy, Debug)]
pub struct ScriptStep {
    pub bitfield: u16,
    pub last_step: bool,
}

/// The entities of a map, their logic, and the steps of their scripts and
/// conditions.
#[derive(Clone, Debug)]
pub struct MapEntities {
    pub entities: Vec<Entity>,
    pub entity_logics: Vec<EntityLogic>,
    pub scripts_conditions: Vec<ScriptStep>,
}

/// A script step of this type gives the player an item.
pub open spec fn adds_item(t: u16) -> bool {
    t >= 0x80 && t - 0x80 < 0xf
}

/// The type of a script step.
pub open spec fn step_type(s: ScriptStep) -> u16 {
    (s.bitfield & 0xfffe) >> 8u16
}

/// The item a script step that gives one gives.
pub open spec fn step_item(s: ScriptStep) -> u16 {
    s.bitfield & 0x1ff
}

/// The logic pointer of the first entity that has one, from `i` on.
pub open spec fn first_logic(es: Seq<Entity>, i: int) -> Option<u32>
    decreases es.len() - i,
{
    if i < 0 || i >= es.len() {
        None
    } else if es[i].logic.value != 0 {
        Some(es[i].logic.value)
    } else {
        first_logic(es, i + 1)
    }
}

/// The smaller of two optional addresses.
pub open spec fn min_opt(a: Option<u32>, b: Option<u32>) -> Option<u32> {
    match (a, b) {
        (Some(x), Some(y)) => Some(if x <= y { x } else { y }),
        (Some(x), None) => Some(x),
        (None, _) => b,
    }
}

/// The address of a pointer, if it is not null.
pub open spec fn address(p: Pointer) -> Option<u32> {
    if p.value == 0 {
        None
    } else {
        Some(p.value)
    }
}

/// The lowest address of the scripts and conditions of the logic from `j`
/// on: where the list of their steps starts.
pub open spec fn steps_base(ls: Seq<EntityLogic>, j: int) -> Option<u32>
    decreases ls.len() - j,
{
    if j < 0 || j >= ls.len() {
        None
    } else {
        min_opt(min_opt(address(ls[j].script), address(ls[j].conditions)), steps_base(ls, j + 1))
    }
}

/// The items that the steps of a script give, from step `k` to the step
/// that ends the script.
pub open spec fn step_items(ss: Seq<ScriptStep>, k: int) -> Seq<u16>
    decreases ss.len() - k,
{
    if k < 0 || k >= ss.len() || ss[k].last_step {
        Seq::empty()
    } else {
        (if adds_item(step_type(ss[k])) {
            seq![step_item(ss[k])]
        } else {
            Seq::empty()
        }) + step_items(ss, k + 1)
    }
}

/// Where the steps of a script start in the list of steps.
pub open spec fn step_index(script: Pointer, base: u32) -> int {
    (script.value - base) / 4
}

/// Where a logic pointer's logic starts in the list of logic.
pub open spec fn logic_index(logic: Pointer, first: u32) -> int {
    (logic.value - first) / 12
}

/// The items that the scripts of the logic give, from `j` to the first
/// logic that shows no text.
pub open spec fn logic_items(ls: Seq<EntityLogic>, ss: Seq<ScriptStep>, j: int, base: u32) -> Seq<u16>
    decreases ls.len() - j,
{
    if j < 0 || j >= ls.len() || ls[j].text_index == 0 {
        Seq::empty()
    } else {
        (if ls[j].script.value == 0 {
            Seq::empty()
        } else {
            step_items(ss, step_index(ls[j].script, base))
        }) + logic_items(ls, ss, j + 1, base)
    }
}

/// The entity is an item box: its sprite is one of theirs and it has
/// logic.
pub open spec fn is_item_box(e: Entity, sprites: Seq<u16>) -> bool {
    sprites.contains(e.sprite) && e.logic.value != 0
}

/// The items that the item boxes among the entities from `i` on give.
pub open spec fn entity_items(
    m: MapEntities,
    i: int,
    first: u32,
    base: u32,
    sprites: Seq<u16>,
) -> Seq<u16>
    decreases m.entities.len() - i,
{
    if i < 0 || i >= m.entities.len() {
        Seq::empty()
    } else {
        (if is_item_box(m.entities@[i], sprites) {
            logic_items(m.entity_logics@, m.scripts_conditions@, logic_index(m.entities@[i].logic, first), base)
        } else {
            Seq::empty()
        }) + entity_items(m, i + 1, first, base, sprites)
    }
}

/// The items that the item boxes of a map give, in order.
pub open spec fn box_items(m: MapEntities, sprites: Seq<u16>) -> Seq<u16> {
    match (first_logic(m.entities@, 0), steps_base(m.entity_logics@, 0)) {
        (Some(first), Some(base)) => entity_items(m, 0, first, base, sprites),
        _ => Seq::empty(),
    }
}

/// Every script that the logic from `j` on runs starts within the list of
/// steps.
pub open spec fn logic_fits(ls: Seq<EntityLogic>, ss: Seq<ScriptStep>, j: int, base: u32) -> bool
    decreases ls.len() - j,
{
    if j < 0 || j >= ls.len() || ls[j].text_index == 0 {
        true
    } else {
        &&& (ls[j].script.value == 0 || step_index(ls[j].script, base) <= ss.len())
        &&& logic_fits(ls, ss, j + 1, base)
    }
}

/// Every item box from `i` on has its logic at or after the first logic,
/// within the list of logic, and its scripts start within the list of
/// steps.
pub open spec fn entities_fit(m: MapEntities, i: int, first: u32, base: u32, sprites: Seq<u16>) -> bool
    decreases m.entities.len() - i,
{
    if i < 0 || i >= m.entities.len() {
        true
    } else {
        &&& is_item_box(m.entities@[i], sprites) ==> {
            &&& m.entities@[i].logic.value >= first
            &&& logic_index(m.entities@[i].logic, first) <= m.entity_logics.len()
            &&& logic_fits(
                m.entity_logics@,
                m.scripts_conditions@,
                logic_index(m.entities@[i].logic, first),
                base,
            )
        }
        &&& entities_fit(m, i + 1, first, base, sprites)
    }
}

/// The item boxes of the map can be walked: each lies within the lists it
/// points into.
pub open spec fn boxes_fit(m: MapEntities, sprites: Seq<u16>) -> bool {
    match (first_logic(m.entities@, 0), steps_base(m.entity_logics@, 0)) {
        (Some(first), Some(base)) => entities_fit(m, 0, first, base, sprites),
        _ => true,
    }
}

/// The logic pointer of the first entity that has one.
pub(crate) fn find_first_logic(es: &Vec<Entity>) -> (r: Option<u32>)
    ensures
        r == first_logic(es@, 0),
{
    let mut i: usize = 0;
    while i < es.len()
        invariant
            i <= es.len(),
            first_logic(es@, 0) == first_logic(es@, i as int),
        decreases es.len() - i,
    {
        if es[i].logic.value != 0 {
            return Some(es[i].logic.value);
        }
        i += 1;
    }
    None
}

/// The smaller of two optional addresses.
fn min_of(a: Option<u32>, b: Option<u32>) -> (r: Option<u32>)
    ensures
        r == min_opt(a, b),
{
    match (a, b) {
        (Some(x), Some(y)) => Some(if x <= y { x } else { y }),
        (Some(x), None) => Some(x),
        (None, _) => b,
    }
}

/// The address of a pointer, if it is not null.
fn address_of(p: Pointer) -> (r: Option<u32>)
    ensures
        r == address(p),
{
    if p.value == 0 {
        None
    } else {
        Some(p.value)
    }
}

/// The lowest address of the scripts and conditions of the logic.
pub(crate) fn find_steps_base(ls: &Vec<EntityLogic>) -> (r: Option<u32>)
    ensures
        r == steps_base(ls@, 0),
{
    let mut acc: Option<u32> = None;
    let mut j: usize = ls.len();
    while j > 0
        invariant
            j <= ls.len(),
            acc == steps_base(ls@, j as int),
        decreases j,
    {
        j -= 1;
        acc = min_of(min_of(address_of(ls[j].script), address_of(ls[j].conditions)), acc);
    }
    acc
}

/// The base is no higher than any script or conditions address from `j`
/// on.
pub(crate) proof fn lemma_steps_base_below(ls: Seq<EntityLogic>, j: int, k: int)
    requires
        0 <= j <= k < ls.len(),
        ls[k].script.value != 0,
    ensures
        steps_base(ls, j) matches Some(b) && b <= ls[k].script.value,
    decreases k - j,
{
    if j < k {
        lemma_steps_base_below(ls, j + 1, k);
    }
}

/// Appends the items that the steps of a script give, from step `k` on.
fn push_step_items(ss: &Vec<ScriptStep>, k: usize, out: &mut Vec<u16>)
    requires
        k <= ss.len(),
    ensures
        final(out)@ == old(out)@ + step_items(ss@, k as int),
{
    let mut i: usize = k;
    while i < ss.len()
        invariant
            k <= i <= ss.len(),
            old(out)@ + step_items(ss@, k as int) == out@ + step_items(ss@, i as int),
        decreases ss.len() - i,
    {
        let s = ss[i];
        if s.last_step {
            return;
        }
        let ghost before = out@;
        let t = (s.bitfield & 0xfffe) >> 8u16;
        if t >= 0x80 && t - 0x80 < 0xf {
            out.push(s.bitfield & 0x1ff);
            assert(out@ == before + seq![step_item(ss@[i as int])]);
        }
        assert(before + step_items(ss@, i as int) == out@ + step_items(ss@, i + 1));
        i += 1;
    }
}

/// Appends the items that the scripts of the logic give, from `j` on.
fn push_logic_items(ls: &Vec<EntityLogic>, ss: &Vec<ScriptStep>, j: usize, base: u32, out: &mut Vec<u16>)
    requires
        j <= ls.len(),
        logic_fits(ls@, ss@, j as int, base),
        forall|k: int| j <= k < ls.len() && ls@[k].script.value != 0 ==> base <= #[trigger] ls@[k].script.value,
    ensures
        final(out)@ == old(out)@ + logic_items(ls@, ss@, j as int, base),
{
    let mut i: usize = j;
    while i < ls.len()
        invariant
            j <= i <= ls.len(),
            logic_fits(ls@, ss@, i as int, base),
            forall|k: int| j <= k < ls.len() && ls@[k].script.value != 0 ==> base <= #[trigger] ls@[k].script.value,
            old(out)@ + logic_items(ls@, ss@, j as int, base) == out@ + logic_items(ls@, ss@, i as int, base),
        decreases ls.len() - i,
    {
        let l = ls[i];
        if l.text_index == 0 {
            return;
        }
        let ghost before = out@;
        if l.script.value != 0 {
            assert(base <= ls@[i as int].script.value);
            let k = ((l.script.value - base) / 4) as usize;
            push_step_items(ss, k, out);
        }
        assert(before + logic_items(ls@, ss@, i as int, base) == out@ + logic_items(ls@, ss@, i + 1, base));
        i += 1;
    }
}

/// The items that the item boxes of a map give, in order: for each item
/// box, each script of its logic up to the first logic that shows no text,
/// each step of the script up to the one that ends it, the item of every
/// step that gives one.
pub fn item_box_items(m: &MapEntities, sprites: &Vec<u16>) -> (items: Vec<u16>)
    requires
        boxes_fit(*m, sprites@),
    ensures
        items@ == box_items(*m, sprites@),
{
    let mut items: Vec<u16> = Vec::new();
    let first = match find_first_logic(&m.entities) {
        Some(f) => f,
        None => return items,
    };
    let base = match find_steps_base(&m.entity_logics) {
        Some(b) => b,
        None => return items,
    };
    proof {
        assert forall|k: int| 0 <= k < m.entity_logics.len() && m.entity_logics@[k].script.value != 0 implies base
            <= #[trigger] m.entity_logics@[k].script.value by {
            lemma_steps_base_below(m.entity_logics@, 0, k);
        }
    }
    let mut i: usize = 0;
    while i < m.entities.len()
        invariant
            i <= m.entities.len(),
            first_logic(m.entities@, 0) == Some(first),
            steps_base(m.entity_logics@, 0) == Some(base),
            entities_fit(*m, i as int, first, base, sprites@),
            forall|k: int| 0 <= k < m.entity_logics.len() && m.entity_logics@[k].script.value != 0 ==> base
                <= #[trigger] m.entity_logics@[k].script.value,
            box_items(*m, sprites@) == items@ + entity_items(*m, i as int, first, base, sprites@),
        decreases m.entities.len() - i,
    {
        let e = m.entities[i];
        let ghost before = items@;
        if e.logic.value != 0 && contains_u16(sprites, e.sprite) {
            let j = ((e.logic.value - first) / 12) as usize;
            push_logic_items(&m.entity_logics, &m.scripts_conditions, j, base, &mut items);
        }
        assert(before + entity_items(*m, i as int, first, base, sprites@) == items@ + entity_items(
            *m,
            i + 1,
            first,
            base,
            sprites@,
        ));
        i += 1;
    }
    items
}

/// Whether the list holds the value.
fn contains_u16(v: &Vec<u16>, x: u16) -> (r: bool)
    ensures
        r == v@.contains(x),
{
    let mut i: usize = 0;
    while i < v.len()
        invariant
            i <= v.len(),
            forall|k: int| 0 <= k < i ==> v@[k] != x,
        decreases v.len() - i,
    {
        if v[i] == x {
            return true;
        }
        i += 1;
    }
    false
}

} // verus!
