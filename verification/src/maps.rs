//! Randomization of the maps: colors, backgrounds, battle backgrounds and
//! music.

use crate::json::GroupStrategy;
use crate::rng::{next_u32, next_u64};
use crate::util::{
    copies_drawn, draw_count, draw_lists, occurrences, sorted_unique, strictly_increasing, uniform_draws, uniform_drawn,
    uniform_random_vector, uniform_random_vector_with_draws,
};
use rand_xoshiro::Xoshiro256StarStar;
use std::collections::HashMap;
use vstd::prelude::*;

verus! {

broadcast use vstd::seq_lib::group_to_multiset_ensures;

/// Number of battle backgrounds of the game.
pub const FIGHT_BACKGROUND_COUNT: u32 = 0x39;

/// Which music a music pool draws from.
#[derive(Clone, Copy, Debug, PartialEq, Eq, Structural)]
pub enum MusicPool {
    Overworld,
    Battle,
    Both,
}

impl From<u8> for MusicPool {
    fn from(value: u8) -> (r: Self) {
        match value {
            0 => MusicPool::Overworld,
            1 => MusicPool::Battle,
            _ => MusicPool::Both,
        }
    }
}

impl vstd::std_specs::convert::FromSpecImpl<u8> for MusicPool {
    open spec fn obeys_from_spec() -> bool {
        true
    }

    open spec fn from_spec(value: u8) -> Self {
        if value == 0 {
            MusicPool::Overworld
        } else if value == 1 {
            MusicPool::Battle
        } else {
            MusicPool::Both
        }
    }
}

/// A battle that a map can start: the enemy team, the background it is
/// fought on and its music (the sound file in the upper half).
#[derive(Clone, Copy, Debug, PartialEq, Eq, Structural)]
pub struct StageEncounter {
    pub team_id: u32,
    pub stage: u32,
    pub music: u32,
}

/// The battles of one encounter table, as read and as changed.
pub struct EncounterTable {
    pub original: Vec<StageEncounter>,
    pub modified: Vec<StageEncounter>,
}

/// A piece of overworld music: the track in its sound file and the file.
#[derive(Clone, Copy, Debug, PartialEq, Eq, Structural)]
pub struct MusicSet {
    pub sep_track: u16,
    pub sep_file: u16,
}

/// The color a map is tinted with.
#[derive(Clone, Copy, Debug, PartialEq, Eq, Structural)]
pub struct MapColor {
    pub red: u8,
    pub green: u8,
    pub blue: u8,
}

/// What the randomizer reads and changes of a map.
pub struct MapObject {
    pub background_original: u16,
    pub background_modified: u16,
    pub color: Option<MapColor>,
    pub music_original: Vec<MusicSet>,
    pub music_modified: Vec<MusicSet>,
    pub stage_encounters: Vec<Option<EncounterTable>>,
}

/// Why the maps could not be randomized.
#[derive(Debug, Clone, Copy, PartialEq, Eq, Structural)]
pub enum MapsError {
    /// More pieces of music to replace than were drawn.
    MissingMusic,
}

/// A script step of this type gives the player an item.
pub fn type_script_add_item(value: u16) -> (r: bool)
    ensures
        r == (value >= 0x80 && value - 0x80 < 0xf),
{
    (value >= 0x80) && (value - 0x80) < 0xf
}

/// The maps agree in everything but their colors.
pub open spec fn same_but_color(a: MapObject, b: MapObject) -> bool {
    &&& a.background_original == b.background_original
    &&& a.background_modified == b.background_modified
    &&& a.color.is_some() == b.color.is_some()
    &&& a.music_original == b.music_original
    &&& a.music_modified == b.music_modified
    &&& a.stage_encounters == b.stage_encounters
}

/// Number of the maps before map `i` that have a color.
pub open spec fn colored_before(maps: Seq<MapObject>, i: int) -> int
    decreases i,
{
    if i <= 0 {
        0
    } else {
        colored_before(maps, i - 1) + (if maps[i - 1].color is Some { 1int } else { 0int })
    }
}

/// The color that draws `3c`, `3c + 1` and `3c + 2` give: each channel is
/// its draw modulo 256.
pub open spec fn color_of_draws(draws: Seq<u64>, c: int) -> MapColor {
    MapColor {
        red: (draws[3 * c] % 256) as u8,
        green: (draws[3 * c + 1] % 256) as u8,
        blue: (draws[3 * c + 2] % 256) as u8,
    }
}

/// The maps are recolored with the given draws: the `c`-th map that has a
/// color, counting from 0, takes `color_of_draws(draws, c)`, and nothing
/// else changes.
pub open spec fn colored_by(old_m: Seq<MapObject>, new_m: Seq<MapObject>, draws: Seq<u64>) -> bool {
    &&& new_m.len() == old_m.len()
    &&& forall|i: int| 0 <= i < old_m.len() ==> same_but_color(#[trigger] old_m[i], new_m[i])
    &&& forall|i: int|
        0 <= i < old_m.len() && old_m[i].color is Some ==> #[trigger] new_m[i].color == Some(
            color_of_draws(draws, colored_before(old_m, i)),
        )
}

/// Counting colored maps up to `j` counts at least as many as up to `i`.
proof fn lemma_colored_before_mono(maps: Seq<MapObject>, i: int, j: int)
    requires
        0 <= i <= j,
    ensures
        colored_before(maps, i) <= colored_before(maps, j),
    decreases j - i,
{
    if i < j {
        lemma_colored_before_mono(maps, i, j - 1);
    }
}

/// Recolors every map that has a color with the given draws, three a map
/// in order: each channel is its draw modulo 256.
pub fn color_with_draws(maps: &mut Vec<MapObject>, draws: &Vec<u64>)
    requires
        draws.len() == 3 * colored_before(old(maps)@, old(maps).len() as int),
    ensures
        colored_by(old(maps)@, final(maps)@, draws@),
{
    let mut c: usize = 0;
    let mut i: usize = 0;
    while i < maps.len()
        invariant
            i <= maps.len() == old(maps).len(),
            draws.len() == 3 * colored_before(old(maps)@, old(maps).len() as int),
            c == colored_before(old(maps)@, i as int),
            forall|q: int| 0 <= q < i ==> same_but_color(#[trigger] old(maps)@[q], maps@[q]),
            forall|q: int|
                0 <= q < i && old(maps)@[q].color is Some ==> #[trigger] maps@[q].color == Some(
                    color_of_draws(draws@, colored_before(old(maps)@, q)),
                ),
            forall|q: int| i <= q < maps.len() ==> #[trigger] maps@[q] == old(maps)@[q],
        decreases maps.len() - i,
    {
        let ghost before = maps@;
        proof {
            lemma_colored_before_mono(old(maps)@, i as int + 1, old(maps).len() as int);
        }
        if maps[i].color.is_some() {
            let red = (draws[3 * c] % 256) as u8;
            let green = (draws[3 * c + 1] % 256) as u8;
            let blue = (draws[3 * c + 2] % 256) as u8;
            maps[i].color = Some(MapColor { red, green, blue });
            c = c + 1;
        }
        proof {
            assert forall|q: int| 0 <= q < i + 1 implies same_but_color(#[trigger] old(maps)@[q], maps@[q]) by {
                if q < i {
                    assert(maps@[q] == before[q]);
                }
            }
            assert forall|q: int|
                0 <= q < i + 1 && old(maps)@[q].color is Some implies #[trigger] maps@[q].color == Some(
                    color_of_draws(draws@, colored_before(old(maps)@, q)),
                ) by {
                if q < i {
                    assert(maps@[q] == before[q]);
                }
            }
        }
        i += 1;
    }
}

/// Gives every map that has a color a random one: draws three numbers
/// from the generator for each such map, in order, and recolors with them
/// (`color_with_draws`).
pub fn color(maps: &mut Vec<MapObject>, rng: &mut Xoshiro256StarStar)
    ensures
        final(maps).len() == old(maps).len(),
        forall|i: int| 0 <= i < old(maps).len() ==> same_but_color(#[trigger] old(maps)@[i], final(maps)@[i]),
        exists|draws: Seq<u64>|
            #![trigger colored_by(old(maps)@, final(maps)@, draws)]
            draws.len() == 3 * colored_before(old(maps)@, old(maps).len() as int) && colored_by(
                old(maps)@,
                final(maps)@,
                draws,
            ),
{
    let mut draws: Vec<u64> = Vec::new();
    let mut i: usize = 0;
    while i < maps.len()
        invariant
            i <= maps.len(),
            draws.len() == 3 * colored_before(maps@, i as int),
        decreases maps.len() - i,
    {
        if maps[i].color.is_some() {
            draws.push(next_u64(rng));
            draws.push(next_u64(rng));
            draws.push(next_u64(rng));
        }
        i += 1;
    }
    color_with_draws(maps, &draws);
}

/// Charisma requirements that let every Digimon be recruited at once.
pub fn ironmon_charisma(charisma_reqs: &mut Vec<u16>)
    ensures
        final(charisma_reqs)@ == Seq::new(15, |i: int| 1u16),
{
    *charisma_reqs = vec![1, 1, 1, 1, 1, 1, 1, 1, 1, 1, 1, 1, 1, 1, 1];
    assert(charisma_reqs@ =~= Seq::new(15, |i: int| 1u16));
}

/// The backgrounds the maps had before.
pub open spec fn original_backgrounds(maps: Seq<MapObject>) -> Seq<u16> {
    maps.map_values(|m: MapObject| m.background_original)
}

/// The backgrounds the maps have now.
pub open spec fn modified_backgrounds(maps: Seq<MapObject>) -> Seq<u16> {
    maps.map_values(|m: MapObject| m.background_modified)
}

/// The maps agree in everything but the background they show.
pub open spec fn same_but_background(a: MapObject, b: MapObject) -> bool {
    &&& a.background_original == b.background_original
    &&& a.color == b.color
    &&& a.music_original == b.music_original
    &&& a.music_modified == b.music_modified
    &&& a.stage_encounters == b.stage_encounters
}

/// How many copies of the set of backgrounds are drawn for the maps.
pub open spec fn background_copies(maps: Seq<MapObject>) -> int {
    copies_drawn(maps.len() as int, original_backgrounds(maps).to_set().len() as int)
}

/// The different backgrounds the maps had, in increasing order.
fn background_pool(maps: &Vec<MapObject>) -> (possible: Vec<u16>)
    requires
        maps.len() >= 1,
    ensures
        strictly_increasing(possible@),
        possible@.no_duplicates(),
        1 <= possible.len() <= maps.len(),
        possible.len() == original_backgrounds(maps@).to_set().len(),
        forall|b: u16| #[trigger] possible@.contains(b) <==> original_backgrounds(maps@).contains(b),
{
    let mut originals: Vec<u16> = Vec::new();
    let mut i: usize = 0;
    while i < maps.len()
        invariant
            i <= maps.len(),
            originals@ == original_backgrounds(maps@).take(i as int),
        decreases maps.len() - i,
    {
        originals.push(maps[i].background_original);
        i += 1;
        assert(originals@ =~= original_backgrounds(maps@).take(i as int));
    }
    assert(originals@ =~= original_backgrounds(maps@));
    let possible = sorted_unique(&originals);
    proof {
        assert(originals@.to_set().contains(originals@[0]));
        assert(possible@.to_set().contains(originals@[0]));
        originals@.lemma_cardinality_of_set();
        assert forall|b: u16| #[trigger] possible@.contains(b) <==> original_backgrounds(maps@).contains(b) by {
            assert(possible@.contains(b) <==> possible@.to_set().contains(b));
            assert(originals@.contains(b) <==> originals@.to_set().contains(b));
        }
    }
    possible
}

/// Map `i` shows the background at `len - 1 - i` of the vector that
/// `uniform_random_vector_with_draws` builds with the draws from the
/// different backgrounds the maps had, in increasing order.
pub open spec fn backgrounds_drawn(
    old_maps: Seq<MapObject>,
    new_maps: Seq<MapObject>,
    copy_draws: Seq<Seq<usize>>,
    final_draws: Seq<usize>,
) -> bool {
    exists|pool: Seq<u16>|
        #![trigger uniform_drawn(pool, old_maps.len() as int, copy_draws, final_draws)]
        {
            &&& strictly_increasing(pool)
            &&& pool.to_set() == original_backgrounds(old_maps).to_set()
            &&& forall|i: int|
                0 <= i < old_maps.len() ==> #[trigger] new_maps[i].background_modified == uniform_drawn(
                    pool,
                    old_maps.len() as int,
                    copy_draws,
                    final_draws,
                )[old_maps.len() - 1 - i]
        }
}

/// Shuffles the backgrounds between the maps with the given draws
/// (`backgrounds_drawn`): the vector of backgrounds is built as
/// `uniform_random_vector_with_draws` builds it and handed out from its
/// end, so that every map shows one of the backgrounds the maps had and
/// they are spread as evenly as the number of maps allows.
#[verifier::spinoff_prover]
pub fn backgrounds_with_draws(maps: &mut Vec<MapObject>, copy_draws: &Vec<Vec<usize>>, final_draws: &Vec<usize>)
    requires
        1 <= old(maps).len() <= usize::MAX / 2,
        copy_draws.len() == background_copies(old(maps)@),
        forall|d: int| 0 <= d < copy_draws.len() ==> (#[trigger] copy_draws@[d]).len() == 0 || original_backgrounds(
            old(maps)@,
        ).to_set().len() >= 2,
        final_draws.len() == 0 || old(maps).len() >= 2,
    ensures
        final(maps).len() == old(maps).len(),
        forall|i: int| 0 <= i < old(maps).len() ==> same_but_background(#[trigger] old(maps)@[i], final(maps)@[i]),
        forall|i: int|
            0 <= i < old(maps).len() ==> original_backgrounds(old(maps)@).contains(
                #[trigger] final(maps)@[i].background_modified,
            ),
        forall|b: u16|
            original_backgrounds(old(maps)@).contains(b) ==> background_copies(old(maps)@) - 1
                <= #[trigger] occurrences(modified_backgrounds(final(maps)@), b) <= background_copies(old(maps)@),
        backgrounds_drawn(old(maps)@, final(maps)@, draw_lists(copy_draws@), final_draws@),
{
    let possible = background_pool(maps);
    let ghost n = possible.len() as int;
    let ghost len = maps.len() as int;
    let mut shuffled = uniform_random_vector_with_draws(&possible, maps.len(), copy_draws, final_draws);
    let ghost shuffled0 = shuffled@;
    let ghost mut assigned: Seq<u16> = Seq::empty();
    let mut j: usize = 0;
    while j < maps.len()
        invariant
            j <= maps.len() == old(maps).len(),
            len == maps.len(),
            n == possible.len() == original_backgrounds(old(maps)@).to_set().len(),
            possible@.no_duplicates(),
            forall|b: u16| #[trigger] possible@.contains(b) <==> original_backgrounds(old(maps)@).contains(b),
            forall|b: u16|
                #![trigger occurrences(shuffled0, b)]
                (copies_drawn(len, n) - 1) * occurrences(possible@, b) <= occurrences(shuffled0, b)
                    <= copies_drawn(len, n) * occurrences(possible@, b),
            shuffled.len() + j == len,
            forall|k: int| 0 <= k < shuffled.len() ==> possible@.contains(#[trigger] shuffled@[k]),
            assigned == modified_backgrounds(maps@).take(j as int),
            forall|b: u16|
                #![trigger occurrences(shuffled@, b)]
                occurrences(assigned, b) + occurrences(shuffled@, b) == occurrences(shuffled0, b),
            forall|q: int| 0 <= q < maps.len() ==> same_but_background(#[trigger] old(maps)@[q], maps@[q]),
            forall|q: int| j <= q < maps.len() ==> #[trigger] maps@[q] == old(maps)@[q],
            forall|q: int| 0 <= q < j ==> possible@.contains(#[trigger] maps@[q].background_modified),
            shuffled@ == shuffled0.take(len - j),
            shuffled0.len() == len,
            forall|q: int| 0 <= q < j ==> #[trigger] maps@[q].background_modified == shuffled0[len - 1 - q],
        decreases maps.len() - j,
    {
        let ghost s_before = shuffled@;
        let ghost before = maps@;
        proof {
            assert(possible@.contains(s_before[s_before.len() - 1]));
        }
        let b = shuffled.pop().unwrap();
        proof {
            assert(s_before =~= shuffled@.push(b));
            assert forall|x: u16| #![trigger occurrences(shuffled@, x)]
                occurrences(shuffled@, x) == occurrences(s_before, x) - (if x == b { 1int } else { 0int }) by {}
            assert forall|k: int| 0 <= k < shuffled.len() implies possible@.contains(#[trigger] shuffled@[k]) by {
                assert(shuffled@[k] == s_before[k]);
            }
        }
        maps[j].background_modified = b;
        proof {
            assigned = assigned.push(b);
            assert(assigned =~= modified_backgrounds(maps@).take(j + 1));
            assert forall|q: int| 0 <= q < maps.len() implies same_but_background(#[trigger] old(maps)@[q], maps@[q]) by {
                if q != j {
                    assert(maps@[q] == before[q]);
                }
            }
            assert forall|q: int| 0 <= q < j + 1 implies possible@.contains(#[trigger] maps@[q].background_modified) by {
                if q < j {
                    assert(maps@[q] == before[q]);
                }
            }
            assert(shuffled@ =~= shuffled0.take(len - j - 1));
            assert forall|q: int| 0 <= q < j + 1 implies #[trigger] maps@[q].background_modified == shuffled0[len - 1 - q] by {
                if q < j {
                    assert(maps@[q] == before[q]);
                }
            }
        }
        j += 1;
    }
    proof {
        assert(modified_backgrounds(maps@).take(len) =~= modified_backgrounds(maps@));
        possible@.lemma_multiset_has_no_duplicates();
        assert forall|b: u16|
            original_backgrounds(old(maps)@).contains(b) implies background_copies(old(maps)@) - 1
                <= #[trigger] occurrences(modified_backgrounds(maps@), b) <= background_copies(old(maps)@) by {
            assert(possible@.contains(b));
            assert(possible@.to_multiset().contains(b));
            assert(occurrences(possible@, b) == 1);
            assert(shuffled@.len() == 0);
            assert(!shuffled@.contains(b));
            assert(occurrences(assigned, b) + occurrences(shuffled@, b) == occurrences(shuffled0, b));
            let c = copies_drawn(len, n);
            let o = occurrences(possible@, b);
            assert((c - 1) * o == c - 1 && c * o == c) by (nonlinear_arith)
                requires
                    o == 1,
            ;
            assert((c - 1) * o <= occurrences(shuffled0, b) <= c * o);
            assert(c == background_copies(old(maps)@));
        }
        assert forall|i: int| 0 <= i < old(maps).len() implies original_backgrounds(old(maps)@).contains(
            #[trigger] maps@[i].background_modified) by {
            assert(possible@.contains(maps@[i].background_modified));
        }
        assert(possible@.to_set() =~= original_backgrounds(old(maps)@).to_set()) by {
            assert forall|b: u16| possible@.to_set().contains(b) <==> original_backgrounds(old(maps)@).to_set().contains(b) by {
                assert(possible@.contains(b) <==> original_backgrounds(old(maps)@).contains(b));
            }
        }
        assert(shuffled0 == uniform_drawn(possible@, len, draw_lists(copy_draws@), final_draws@));
    }
}

/// Shuffles the backgrounds between the maps: every map shows one of the
/// backgrounds the maps had, and the backgrounds are spread as evenly as
/// the number of maps allows. The draws come from the generator as
/// `uniform_random_vector` takes them, and the maps get what
/// `backgrounds_with_draws` gives them with those draws.
pub fn backgrounds(maps: &mut Vec<MapObject>, shuffles: u8, rng: &mut Xoshiro256StarStar)
    requires
        1 <= old(maps).len() <= usize::MAX / 2,
    ensures
        final(maps).len() == old(maps).len(),
        forall|i: int| 0 <= i < old(maps).len() ==> same_but_background(#[trigger] old(maps)@[i], final(maps)@[i]),
        forall|i: int|
            0 <= i < old(maps).len() ==> original_backgrounds(old(maps)@).contains(
                #[trigger] final(maps)@[i].background_modified,
            ),
        forall|b: u16|
            original_backgrounds(old(maps)@).contains(b) ==> background_copies(old(maps)@) - 1
                <= #[trigger] occurrences(modified_backgrounds(final(maps)@), b) <= background_copies(old(maps)@),
        exists|copy_draws: Seq<Seq<usize>>, final_draws: Seq<usize>|
            #![trigger backgrounds_drawn(old(maps)@, final(maps)@, copy_draws, final_draws)]
            {
                &&& copy_draws.len() == background_copies(old(maps)@)
                &&& forall|d: int| 0 <= d < copy_draws.len() ==> (#[trigger] copy_draws[d]).len() == draw_count(
                    original_backgrounds(old(maps)@).to_set().len() as int,
                    shuffles as int,
                )
                &&& final_draws.len() == draw_count(old(maps).len() as int, shuffles as int)
                &&& backgrounds_drawn(old(maps)@, final(maps)@, copy_draws, final_draws)
            },
{
    let n = background_pool(maps).len();
    let (copy_draws, final_draws) = uniform_draws(n, maps.len(), shuffles, rng);
    backgrounds_with_draws(maps, &copy_draws, &final_draws);
    proof {
        let cds = draw_lists(copy_draws@);
        assert(forall|d: int| 0 <= d < cds.len() ==> #[trigger] cds[d] == copy_draws@[d]@);
        assert(forall|d: int| 0 <= d < cds.len() ==> (#[trigger] cds[d]).len() == draw_count(n as int, shuffles as int));
    }
}

/// A value of the battles that the randomizer draws anew.
#[derive(Clone, Copy, Debug, PartialEq, Eq, Structural)]
pub enum BattleField {
    Stage,
    Music,
}

/// The value of the field.
pub open spec fn field_value(e: StageEncounter, f: BattleField) -> u32 {
    match f {
        BattleField::Stage => e.stage,
        BattleField::Music => e.music,
    }
}

/// The battles agree in everything but the field.
pub open spec fn same_but_field(a: StageEncounter, b: StageEncounter, f: BattleField) -> bool {
    &&& a.team_id == b.team_id
    &&& f != BattleField::Stage ==> a.stage == b.stage
    &&& f != BattleField::Music ==> a.music == b.music
}

/// The music value of a battle that plays sound file `file`.
pub open spec fn music_of_file(file: u16) -> u32 {
    (file as u32) << 16u32
}

/// A value the field may be drawn as: a background of the game, or the
/// sound file of a piece of music of the pool.
pub open spec fn drawable(v: u32, f: BattleField, pool: Seq<(u16, u16)>) -> bool {
    match f {
        BattleField::Stage => v < FIGHT_BACKGROUND_COUNT,
        BattleField::Music => exists|j: int| 0 <= j < pool.len() && v == music_of_file(#[trigger] pool[j].1),
    }
}

/// Where the draws stand while the battles are walked: the draw that
/// each team's value came from, and the number of draws taken.
pub type DrawState = (Map<u32, int>, int);

/// The draw at place `i`, or 0 past the end of the draws.
pub open spec fn draw_at(draws: Seq<u32>, i: int) -> u32 {
    if 0 <= i < draws.len() {
        draws[i]
    } else {
        0
    }
}

/// The value that the draw `d` gives the field: a background below
/// `FIGHT_BACKGROUND_COUNT`, or the sound file of the pool's piece at `d`
/// modulo the pool's size.
pub open spec fn value_of(f: BattleField, pool: Seq<(u16, u16)>, d: u32) -> u32 {
    match f {
        BattleField::Stage => d % FIGHT_BACKGROUND_COUNT,
        BattleField::Music => music_of_file(pool[(d % (pool.len() as u32)) as int].1),
    }
}

/// The battle with its field set to `v`.
pub open spec fn with_field(e: StageEncounter, f: BattleField, v: u32) -> StageEncounter {
    StageEncounter {
        team_id: e.team_id,
        stage: if f == BattleField::Stage { v } else { e.stage },
        music: if f == BattleField::Music { v } else { e.music },
    }
}

/// The draw that battle `b` takes its value from: its team's draw when
/// the teams are grouped and the team has one, else the next draw.
pub open spec fn battle_draw(b: StageEncounter, grouped: bool, st: DrawState) -> int {
    if grouped && st.0.contains_key(b.team_id) {
        st.0[b.team_id]
    } else {
        st.1
    }
}

/// Where the draws stand after battle `b`.
pub open spec fn battle_step(b: StageEncounter, grouped: bool, st: DrawState) -> DrawState {
    if grouped && st.0.contains_key(b.team_id) {
        st
    } else if grouped {
        (st.0.insert(b.team_id, st.1), st.1 + 1)
    } else {
        (st.0, st.1 + 1)
    }
}

/// Where the draws stand after the battles of a list.
pub open spec fn list_state(bs: Seq<StageEncounter>, grouped: bool, st: DrawState) -> DrawState
    decreases bs.len(),
{
    if bs.len() == 0 {
        st
    } else {
        battle_step(bs.last(), grouped, list_state(bs.drop_last(), grouped, st))
    }
}

/// Where the draws stand after the battles of the tables.
pub open spec fn tables_state(ts: Seq<Option<EncounterTable>>, grouped: bool, st: DrawState) -> DrawState
    decreases ts.len(),
{
    if ts.len() == 0 {
        st
    } else {
        let s = tables_state(ts.drop_last(), grouped, st);
        match ts.last() {
            Some(t) => list_state(t.modified@, grouped, s),
            None => s,
        }
    }
}

/// Where the draws stand when a map is entered: with one value per team
/// on each map the teams start afresh.
pub open spec fn map_entry(strategy: GroupStrategy, st: DrawState) -> DrawState {
    if strategy == GroupStrategy::ByMap {
        (Map::empty(), st.1)
    } else {
        st
    }
}

/// Where the draws stand after the battles of the maps.
pub open spec fn maps_state(ms: Seq<MapObject>, strategy: GroupStrategy, st: DrawState) -> DrawState
    decreases ms.len(),
{
    if ms.len() == 0 {
        st
    } else {
        tables_state(
            ms.last().stage_encounters@,
            strategy != GroupStrategy::Ungrouped,
            map_entry(strategy, maps_state(ms.drop_last(), strategy, st)),
        )
    }
}

/// How many draws redrawing the field of the maps' battles takes.
pub open spec fn draws_needed(ms: Seq<MapObject>, strategy: GroupStrategy) -> int {
    maps_state(ms, strategy, (Map::empty(), 0)).1
}

/// Every battle of the list got the value of the draw that
/// `battle_draw` names for it.
pub open spec fn list_drawn(
    old_bs: Seq<StageEncounter>,
    new_bs: Seq<StageEncounter>,
    f: BattleField,
    pool: Seq<(u16, u16)>,
    grouped: bool,
    st: DrawState,
    draws: Seq<u32>,
) -> bool {
    &&& new_bs.len() == old_bs.len()
    &&& forall|k: int|
        0 <= k < old_bs.len() ==> #[trigger] new_bs[k] == with_field(
            old_bs[k],
            f,
            value_of(f, pool, draw_at(draws, battle_draw(old_bs[k], grouped, list_state(old_bs.take(k), grouped, st)))),
        )
}

/// Every table's battles got their values as `list_drawn` says, the
/// draws going on from table to table.
pub open spec fn tables_drawn(
    old_ts: Seq<Option<EncounterTable>>,
    new_ts: Seq<Option<EncounterTable>>,
    f: BattleField,
    pool: Seq<(u16, u16)>,
    grouped: bool,
    st: DrawState,
    draws: Seq<u32>,
) -> bool {
    &&& new_ts.len() == old_ts.len()
    &&& forall|g: int|
        0 <= g < old_ts.len() ==> table_drawn(
            #[trigger] old_ts[g],
            new_ts[g],
            f,
            pool,
            grouped,
            tables_state(old_ts.take(g), grouped, st),
            draws,
        )
}

/// The table's battles got their values as `list_drawn` says.
pub open spec fn table_drawn(
    o: Option<EncounterTable>,
    n: Option<EncounterTable>,
    f: BattleField,
    pool: Seq<(u16, u16)>,
    grouped: bool,
    st: DrawState,
    draws: Seq<u32>,
) -> bool {
    match o {
        None => n is None,
        Some(a) => {
            &&& n is Some
            &&& n->0.original@ == a.original@
            &&& list_drawn(a.modified@, n->0.modified@, f, pool, grouped, st, draws)
        },
    }
}

/// The battles of the maps got the values of the given draws, in the
/// order of the maps, their tables and their battles: each battle takes
/// the next draw, or, as the strategy says, each team on each map or on
/// all maps takes the next draw at its first battle and keeps its value.
/// Nothing else of the maps changes.
pub open spec fn battles_drawn(
    old_ms: Seq<MapObject>,
    new_ms: Seq<MapObject>,
    f: BattleField,
    pool: Seq<(u16, u16)>,
    strategy: GroupStrategy,
    draws: Seq<u32>,
) -> bool {
    &&& new_ms.len() == old_ms.len()
    &&& forall|m: int|
        0 <= m < old_ms.len() ==> {
            &&& (#[trigger] new_ms[m]).background_original == old_ms[m].background_original
            &&& new_ms[m].background_modified == old_ms[m].background_modified
            &&& new_ms[m].color == old_ms[m].color
            &&& new_ms[m].music_original == old_ms[m].music_original
            &&& new_ms[m].music_modified == old_ms[m].music_modified
            &&& tables_drawn(
                old_ms[m].stage_encounters@,
                new_ms[m].stage_encounters@,
                f,
                pool,
                strategy != GroupStrategy::Ungrouped,
                map_entry(strategy, maps_state(old_ms.take(m), strategy, (Map::empty(), 0))),
                draws,
            )
        }
}

/// The values kept for the teams are those of the draws the state names.
pub open spec fn gen_matches(gen: Map<u32, u32>, st: DrawState, f: BattleField, pool: Seq<(u16, u16)>, draws: Seq<u32>) -> bool {
    &&& forall|t: u32| #[trigger] gen.contains_key(t) <==> st.0.contains_key(t)
    &&& forall|t: u32| #[trigger] st.0.contains_key(t) ==> gen[t] == value_of(f, pool, draw_at(draws, st.0[t]))
}

/// A list's battles take at most one draw each.
proof fn lemma_list_state_bound(bs: Seq<StageEncounter>, grouped: bool, st: DrawState)
    ensures
        st.1 <= list_state(bs, grouped, st).1 <= st.1 + bs.len(),
        !grouped ==> list_state(bs, grouped, st) == (st.0, st.1 + bs.len()),
    decreases bs.len(),
{
    if bs.len() > 0 {
        lemma_list_state_bound(bs.drop_last(), grouped, st);
    }
}

/// The tables' battles take at most one draw each.
proof fn lemma_tables_state_bound(ts: Seq<Option<EncounterTable>>, grouped: bool, st: DrawState)
    ensures
        st.1 <= tables_state(ts, grouped, st).1 <= st.1 + battle_count(ts),
    decreases ts.len(),
{
    if ts.len() > 0 {
        lemma_tables_state_bound(ts.drop_last(), grouped, st);
        let s = tables_state(ts.drop_last(), grouped, st);
        match ts.last() {
            Some(t) => lemma_list_state_bound(t.modified@, grouped, s),
            None => {},
        }
    }
}

/// The maps' battles take at most one draw each.
proof fn lemma_maps_state_bound(ms: Seq<MapObject>, strategy: GroupStrategy, st: DrawState)
    ensures
        st.1 <= maps_state(ms, strategy, st).1 <= st.1 + total_battles(ms),
    decreases ms.len(),
{
    if ms.len() > 0 {
        lemma_maps_state_bound(ms.drop_last(), strategy, st);
        let s = map_entry(strategy, maps_state(ms.drop_last(), strategy, st));
        lemma_tables_state_bound(ms.last().stage_encounters@, strategy != GroupStrategy::Ungrouped, s);
    }
}

/// Takes the next draw, 0 past the end, and gives its value
/// (`value_of`).
fn take_value(f: BattleField, pool: &Vec<(u16, u16)>, draws: &Vec<u32>, cursor: &mut usize) -> (v: u32)
    requires
        f == BattleField::Music ==> 1 <= pool.len() <= u32::MAX,
        *old(cursor) < usize::MAX,
    ensures
        v == value_of(f, pool@, draw_at(draws@, *old(cursor) as int)),
        *final(cursor) == *old(cursor) + 1,
        drawable(v, f, pool@),
{
    let d: u32 = if *cursor < draws.len() {
        draws[*cursor]
    } else {
        0
    };
    *cursor = *cursor + 1;
    match f {
        BattleField::Stage => d % FIGHT_BACKGROUND_COUNT,
        BattleField::Music => {
            let nv = d % (pool.len() as u32);
            let sep_file = pool[nv as usize].1;
            let v = (sep_file as u32) << 16;
            assert(v == music_of_file(pool@[nv as int].1));
            v
        },
    }
}

/// `n` is table `o` with new values, all drawable, of the field of its
/// battles.
pub open spec fn table_field_redrawn(
    o: Option<EncounterTable>,
    n: Option<EncounterTable>,
    f: BattleField,
    pool: Seq<(u16, u16)>,
) -> bool {
    match o {
        None => n is None,
        Some(a) => match n {
            None => false,
            Some(b) => {
                &&& b.original == a.original
                &&& b.modified.len() == a.modified.len()
                &&& forall|k: int|
                    0 <= k < a.modified.len() ==> same_but_field(#[trigger] a.modified@[k], b.modified@[k], f)
                        && drawable(field_value(b.modified@[k], f), f, pool)
            },
        },
    }
}

/// The map's battles have new values of the field; nothing else changed.
pub open spec fn map_field_redrawn(a: MapObject, b: MapObject, f: BattleField, pool: Seq<(u16, u16)>) -> bool {
    &&& a.background_original == b.background_original
    &&& a.background_modified == b.background_modified
    &&& a.color == b.color
    &&& a.music_original == b.music_original
    &&& a.music_modified == b.music_modified
    &&& b.stage_encounters.len() == a.stage_encounters.len()
    &&& forall|g: int|
        0 <= g < a.stage_encounters.len() ==> table_field_redrawn(
            #[trigger] a.stage_encounters@[g],
            b.stage_encounters@[g],
            f,
            pool,
        )
}

/// Every battle of the tables has the value of the field that `gen`
/// gives its team.
pub open spec fn values_from(tables: Seq<Option<EncounterTable>>, f: BattleField, gen: Map<u32, u32>) -> bool {
    forall|g: int, k: int|
        #![trigger tables[g]->0.modified@[k]]
        0 <= g < tables.len() && tables[g] is Some && 0 <= k < tables[g]->0.modified.len() ==> {
            &&& gen.contains_key(tables[g]->0.modified@[k].team_id)
            &&& field_value(tables[g]->0.modified@[k], f) == gen[tables[g]->0.modified@[k].team_id]
        }
}

/// Every value of the map is drawable.
pub open spec fn valid_values(gen: Map<u32, u32>, f: BattleField, pool: Seq<(u16, u16)>) -> bool {
    forall|t: u32| #[trigger] gen.contains_key(t) ==> drawable(gen[t], f, pool)
}

/// Sets the field of the battle.
fn set_field(e: &mut StageEncounter, f: BattleField, v: u32)
    ensures
        same_but_field(*old(e), *final(e), f),
        field_value(*final(e), f) == v,
{
    match f {
        BattleField::Stage => e.stage = v,
        BattleField::Music => e.music = v,
    }
}

/// A value drawn for the field of every battle of the list: battle `k`
/// takes the draw after the `k` before it.
#[verifier::spinoff_prover]
#[verifier::rlimit(30)]
fn redraw_field(
    battles: &mut Vec<StageEncounter>,
    f: BattleField,
    pool: &Vec<(u16, u16)>,
    draws: &Vec<u32>,
    cursor: &mut usize,
    Ghost(st): Ghost<DrawState>,
)
    requires
        f == BattleField::Music ==> 1 <= pool.len() <= u32::MAX,
        st.1 == *old(cursor),
        *old(cursor) + old(battles).len() <= usize::MAX,
    ensures
        final(battles).len() == old(battles).len(),
        forall|k: int|
            0 <= k < old(battles).len() ==> same_but_field(#[trigger] old(battles)@[k], final(battles)@[k], f)
                && drawable(field_value(final(battles)@[k], f), f, pool@),
        list_drawn(old(battles)@, final(battles)@, f, pool@, false, st, draws@),
        *final(cursor) == list_state(old(battles)@, false, st).1,
        list_state(old(battles)@, false, st).0 == st.0,
{
    let mut k: usize = 0;
    while k < battles.len()
        invariant
            k <= battles.len() == old(battles).len(),
            f == BattleField::Music ==> 1 <= pool.len() <= u32::MAX,
            st.1 + old(battles).len() <= usize::MAX,
            *cursor == st.1 + k,
            forall|q: int|
                0 <= q < k ==> same_but_field(#[trigger] old(battles)@[q], battles@[q], f) && drawable(
                    field_value(battles@[q], f),
                    f,
                    pool@,
                ),
            forall|q: int|
                0 <= q < k ==> #[trigger] battles@[q] == with_field(old(battles)@[q], f, value_of(f, pool@, draw_at(draws@, st.1 + q))),
            forall|q: int| k <= q < battles.len() ==> #[trigger] battles@[q] == old(battles)@[q],
        decreases battles.len() - k,
    {
        let ghost before = battles@;
        let v = take_value(f, pool, draws, cursor);
        set_field(&mut battles[k], f, v);
        proof {
            assert forall|q: int| 0 <= q < k + 1 implies same_but_field(#[trigger] old(battles)@[q], battles@[q], f)
                && drawable(field_value(battles@[q], f), f, pool@) by {
                if q < k {
                    assert(battles@[q] == before[q]);
                }
            }
            assert forall|q: int| 0 <= q < k + 1 implies #[trigger] battles@[q] == with_field(old(battles)@[q], f, value_of(f, pool@, draw_at(draws@, st.1 + q))) by {
                if q < k {
                    assert(battles@[q] == before[q]);
                } else {
                    assert(before[q] == old(battles)@[q]);
                }
            }
        }
        k += 1;
    }
    proof {
        lemma_list_state_bound(old(battles)@, false, st);
        assert forall|q: int| 0 <= q < old(battles).len() implies #[trigger] battles@[q] == with_field(
            old(battles)@[q],
            f,
            value_of(f, pool@, draw_at(draws@, battle_draw(old(battles)@[q], false, list_state(old(battles)@.take(q), false, st)))),
        ) by {
            lemma_list_state_bound(old(battles)@.take(q), false, st);
        }
    }
}

/// Gives every battle the value of the field its team already has in
/// `generated`, or takes the next draw for the team and keeps its value
/// there.
#[verifier::spinoff_prover]
fn group_field(
    battles: &mut Vec<StageEncounter>,
    f: BattleField,
    pool: &Vec<(u16, u16)>,
    generated: &mut HashMap<u32, u32>,
    draws: &Vec<u32>,
    cursor: &mut usize,
    Ghost(st): Ghost<DrawState>,
)
    requires
        f == BattleField::Music ==> 1 <= pool.len() <= u32::MAX,
        valid_values(old(generated)@, f, pool@),
        st.1 == *old(cursor),
        *old(cursor) + old(battles).len() <= usize::MAX,
        gen_matches(old(generated)@, st, f, pool@, draws@),
    ensures
        final(battles).len() == old(battles).len(),
        valid_values(final(generated)@, f, pool@),
        old(generated)@.submap_of(final(generated)@),
        forall|k: int|
            0 <= k < old(battles).len() ==> {
                &&& same_but_field(#[trigger] old(battles)@[k], final(battles)@[k], f)
                &&& final(generated)@.contains_key(final(battles)@[k].team_id)
                &&& field_value(final(battles)@[k], f) == final(generated)@[final(battles)@[k].team_id]
            },
        list_drawn(old(battles)@, final(battles)@, f, pool@, true, st, draws@),
        *final(cursor) == list_state(old(battles)@, true, st).1,
        gen_matches(final(generated)@, list_state(old(battles)@, true, st), f, pool@, draws@),
{
    let mut k: usize = 0;
    while k < battles.len()
        invariant
            k <= battles.len() == old(battles).len(),
            f == BattleField::Music ==> 1 <= pool.len() <= u32::MAX,
            valid_values(generated@, f, pool@),
            old(generated)@.submap_of(generated@),
            forall|q: int|
                0 <= q < k ==> {
                    &&& same_but_field(#[trigger] old(battles)@[q], battles@[q], f)
                    &&& generated@.contains_key(battles@[q].team_id)
                    &&& field_value(battles@[q], f) == generated@[battles@[q].team_id]
                },
            forall|q: int| k <= q < battles.len() ==> #[trigger] battles@[q] == old(battles)@[q],
            st.1 + old(battles).len() <= usize::MAX,
            *cursor == list_state(old(battles)@.take(k as int), true, st).1,
            gen_matches(generated@, list_state(old(battles)@.take(k as int), true, st), f, pool@, draws@),
            forall|q: int|
                0 <= q < k ==> #[trigger] battles@[q] == with_field(
                    old(battles)@[q],
                    f,
                    value_of(f, pool@, draw_at(draws@, battle_draw(old(battles)@[q], true, list_state(old(battles)@.take(q), true, st)))),
                ),
        decreases battles.len() - k,
    {
        let team = battles[k].team_id;
        let ghost g_before = generated@;
        let ghost before = battles@;
        let ghost sk = list_state(old(battles)@.take(k as int), true, st);
        proof {
            assert(old(battles)@.take(k + 1).drop_last() =~= old(battles)@.take(k as int));
            assert(old(battles)@.take(k + 1).last() == old(battles)@[k as int]);
            assert(before[k as int] == old(battles)@[k as int]);
            lemma_list_state_bound(old(battles)@.take(k as int), true, st);
        }
        let v = match generated.get(&team) {
            Some(x) => *x,
            None => {
                let nv = take_value(f, pool, draws, cursor);
                generated.insert(team, nv);
                nv
            },
        };
        proof {
            assert(g_before.submap_of(generated@));
            assert(generated@.contains_key(team) && generated@[team] == v);
            assert(v == value_of(f, pool@, draw_at(draws@, battle_draw(old(battles)@[k as int], true, sk))));
            assert(gen_matches(generated@, list_state(old(battles)@.take(k + 1), true, st), f, pool@, draws@)) by {
                let s1 = list_state(old(battles)@.take(k + 1), true, st);
                assert(s1 == battle_step(old(battles)@[k as int], true, sk));
                assert forall|t: u32| #[trigger] s1.0.contains_key(t) implies generated@[t] == value_of(f, pool@, draw_at(draws@, s1.0[t])) by {
                    if t != team {
                        assert(sk.0.contains_key(t));
                    }
                }
            }
        }
        match f {
            BattleField::Stage => battles[k].stage = v,
            BattleField::Music => battles[k].music = v,
        }
        proof {
            assert(battles@[k as int].team_id == team);
            assert(same_but_field(old(battles)@[k as int], battles@[k as int], f));
            assert(field_value(battles@[k as int], f) == v);
            assert forall|q: int| 0 <= q < k + 1 implies {
                &&& same_but_field(#[trigger] old(battles)@[q], battles@[q], f)
                &&& generated@.contains_key(battles@[q].team_id)
                &&& field_value(battles@[q], f) == generated@[battles@[q].team_id]
            } by {
                if q < k {
                    assert(battles@[q] == before[q]);
                    assert(same_but_field(old(battles)@[q], before[q], f));
                    assert(g_before.contains_key(before[q].team_id));
                }
            }
            assert forall|q: int| 0 <= q < k + 1 implies #[trigger] battles@[q] == with_field(
                old(battles)@[q],
                f,
                value_of(f, pool@, draw_at(draws@, battle_draw(old(battles)@[q], true, list_state(old(battles)@.take(q), true, st)))),
            ) by {
                if q < k {
                    assert(battles@[q] == before[q]);
                } else {
                    assert(battles@[q] == with_field(old(battles)@[q], f, v));
                }
            }
        }
        k += 1;
    }
    proof {
        assert(old(battles)@.take(k as int) =~= old(battles)@);
    }
}

/// A map that grows keeps giving the tables' teams their values.
proof fn lemma_values_from_grow(
    tables: Seq<Option<EncounterTable>>,
    f: BattleField,
    g1: Map<u32, u32>,
    g2: Map<u32, u32>,
)
    requires
        values_from(tables, f, g1),
        g1.submap_of(g2),
    ensures
        values_from(tables, f, g2),
{
    assert forall|g: int, k: int|
        #![trigger tables[g]->0.modified@[k]]
        0 <= g < tables.len() && tables[g] is Some && 0 <= k < tables[g]->0.modified.len() implies {
            &&& g2.contains_key(tables[g]->0.modified@[k].team_id)
            &&& field_value(tables[g]->0.modified@[k], f) == g2[tables[g]->0.modified@[k].team_id]
        } by {
        let team = tables[g]->0.modified@[k].team_id;
        assert(g1.contains_key(team));
        assert(g2.contains_key(team) && g2[team] == g1[team]);
    }
}

/// A value drawn for the field of each battle of every table of a map.
#[verifier::spinoff_prover]
#[verifier::rlimit(30)]
fn table_list_field(
    tables: &mut Vec<Option<EncounterTable>>,
    f: BattleField,
    pool: &Vec<(u16, u16)>,
    draws: &Vec<u32>,
    cursor: &mut usize,
    Ghost(st): Ghost<DrawState>,
)
    requires
        f == BattleField::Music ==> 1 <= pool.len() <= u32::MAX,
        st.1 == *old(cursor),
        *old(cursor) + battle_count(old(tables)@) <= usize::MAX,
    ensures
        final(tables).len() == old(tables).len(),
        forall|g: int|
            0 <= g < old(tables).len() ==> table_field_redrawn(#[trigger] old(tables)@[g], final(tables)@[g], f, pool@),
        tables_drawn(old(tables)@, final(tables)@, f, pool@, false, st, draws@),
        *final(cursor) == tables_state(old(tables)@, false, st).1,
        tables_state(old(tables)@, false, st).0 == st.0,
{
    let mut g: usize = 0;
    while g < tables.len()
        invariant
            g <= tables.len() == old(tables).len(),
            f == BattleField::Music ==> 1 <= pool.len() <= u32::MAX,
            forall|q: int| 0 <= q < g ==> table_field_redrawn(#[trigger] old(tables)@[q], tables@[q], f, pool@),
            forall|q: int| g <= q < tables.len() ==> #[trigger] tables@[q] == old(tables)@[q],
            st.1 + battle_count(old(tables)@) <= usize::MAX,
            *cursor == tables_state(old(tables)@.take(g as int), false, st).1,
            tables_state(old(tables)@.take(g as int), false, st).0 == st.0,
            forall|q: int|
                0 <= q < g ==> table_drawn(
                    #[trigger] old(tables)@[q],
                    tables@[q],
                    f,
                    pool@,
                    false,
                    tables_state(old(tables)@.take(q), false, st),
                    draws@,
                ),
        decreases tables.len() - g,
    {
        let ghost before = tables@;
        let ghost sg = tables_state(old(tables)@.take(g as int), false, st);
        proof {
            assert(old(tables)@.take(g + 1).drop_last() =~= old(tables)@.take(g as int));
            assert(old(tables)@.take(g + 1).last() == old(tables)@[g as int]);
            lemma_tables_state_bound(old(tables)@.take(g as int), false, st);
            lemma_table_counts(old(tables)@, g + 1);
            assert(before[g as int] == old(tables)@[g as int]);
        }
        let t = &mut tables[g];
        match t {
            Some(table) => {
                redraw_field(&mut table.modified, f, pool, draws, cursor, Ghost(sg));
            },
            None => {},
        }
        proof {
            assert forall|q: int| 0 <= q < g + 1 implies table_drawn(
                #[trigger] old(tables)@[q],
                tables@[q],
                f,
                pool@,
                false,
                tables_state(old(tables)@.take(q), false, st),
                draws@,
            ) by {
                if q < g {
                    assert(tables@[q] == before[q]);
                }
            }
        }
        proof {
            assert forall|q: int| 0 <= q < g + 1 implies table_field_redrawn(#[trigger] old(tables)@[q], tables@[q], f, pool@) by {
                if q < g {
                    assert(tables@[q] == before[q]);
                }
                if q == g && tables@[q] is Some {
                    let a = old(tables)@[q]->0;
                    let b = tables@[q]->0;
                    assert forall|k: int| 0 <= k < a.modified.len() implies same_but_field(#[trigger] a.modified@[k], b.modified@[k], f)
                        && drawable(field_value(b.modified@[k], f), f, pool@) by {
                        assert(same_but_field(a.modified@[k], b.modified@[k], f));
                    }
                }
            }
        }
        g += 1;
    }
    assert(old(tables)@.take(g as int) =~= old(tables)@);
}

/// A value of the field for each team of the battles of every table of a
/// map: the one the team has in `generated`, or one drawn and added there.
#[verifier::spinoff_prover]
#[verifier::rlimit(30)]
fn table_list_field_grouped(
    tables: &mut Vec<Option<EncounterTable>>,
    f: BattleField,
    pool: &Vec<(u16, u16)>,
    generated: &mut HashMap<u32, u32>,
    draws: &Vec<u32>,
    cursor: &mut usize,
    Ghost(st): Ghost<DrawState>,
)
    requires
        f == BattleField::Music ==> 1 <= pool.len() <= u32::MAX,
        valid_values(old(generated)@, f, pool@),
        st.1 == *old(cursor),
        *old(cursor) + battle_count(old(tables)@) <= usize::MAX,
        gen_matches(old(generated)@, st, f, pool@, draws@),
    ensures
        final(tables).len() == old(tables).len(),
        forall|g: int|
            0 <= g < old(tables).len() ==> table_field_redrawn(#[trigger] old(tables)@[g], final(tables)@[g], f, pool@),
        valid_values(final(generated)@, f, pool@),
        old(generated)@.submap_of(final(generated)@),
        values_from(final(tables)@, f, final(generated)@),
        tables_drawn(old(tables)@, final(tables)@, f, pool@, true, st, draws@),
        *final(cursor) == tables_state(old(tables)@, true, st).1,
        gen_matches(final(generated)@, tables_state(old(tables)@, true, st), f, pool@, draws@),
{
    let mut g: usize = 0;
    while g < tables.len()
        invariant
            g <= tables.len() == old(tables).len(),
            f == BattleField::Music ==> 1 <= pool.len() <= u32::MAX,
            forall|q: int| 0 <= q < g ==> table_field_redrawn(#[trigger] old(tables)@[q], tables@[q], f, pool@),
            forall|q: int| g <= q < tables.len() ==> #[trigger] tables@[q] == old(tables)@[q],
            valid_values(generated@, f, pool@),
            old(generated)@.submap_of(generated@),
            values_from(tables@.take(g as int), f, generated@),
            st.1 + battle_count(old(tables)@) <= usize::MAX,
            *cursor == tables_state(old(tables)@.take(g as int), true, st).1,
            gen_matches(generated@, tables_state(old(tables)@.take(g as int), true, st), f, pool@, draws@),
            forall|q: int|
                0 <= q < g ==> table_drawn(
                    #[trigger] old(tables)@[q],
                    tables@[q],
                    f,
                    pool@,
                    true,
                    tables_state(old(tables)@.take(q), true, st),
                    draws@,
                ),
        decreases tables.len() - g,
    {
        let ghost before = tables@;
        let ghost gen_before = generated@;
        let ghost sg = tables_state(old(tables)@.take(g as int), true, st);
        proof {
            assert(old(tables)@.take(g + 1).drop_last() =~= old(tables)@.take(g as int));
            assert(old(tables)@.take(g + 1).last() == old(tables)@[g as int]);
            lemma_tables_state_bound(old(tables)@.take(g as int), true, st);
            lemma_table_counts(old(tables)@, g + 1);
            assert(before[g as int] == old(tables)@[g as int]);
        }
        let t = &mut tables[g];
        match t {
            Some(table) => {
                group_field(&mut table.modified, f, pool, generated, draws, cursor, Ghost(sg));
            },
            None => {},
        }
        proof {
            assert forall|q: int| 0 <= q < g + 1 implies table_drawn(
                #[trigger] old(tables)@[q],
                tables@[q],
                f,
                pool@,
                true,
                tables_state(old(tables)@.take(q), true, st),
                draws@,
            ) by {
                if q < g {
                    assert(tables@[q] == before[q]);
                }
            }
        }
        proof {
            assert forall|q: int| 0 <= q < g + 1 implies table_field_redrawn(#[trigger] old(tables)@[q], tables@[q], f, pool@) by {
                if q < g {
                    assert(tables@[q] == before[q]);
                }
                if q == g && tables@[q] is Some {
                    let a = old(tables)@[q]->0;
                    let b = tables@[q]->0;
                    assert forall|k: int| 0 <= k < a.modified.len() implies same_but_field(#[trigger] a.modified@[k], b.modified@[k], f)
                        && drawable(field_value(b.modified@[k], f), f, pool@) by {
                        assert(same_but_field(a.modified@[k], b.modified@[k], f));
                        assert(generated@.contains_key(b.modified@[k].team_id));
                    }
                }
            }
            let tk = tables@.take(g + 1);
            assert(gen_before.submap_of(generated@));
            assert forall|k: u32| #[trigger] old(generated)@.dom().contains(k) implies generated@.dom().contains(k)
                && old(generated)@[k] == generated@[k] by {
                assert(gen_before.dom().contains(k));
            }
            lemma_values_from_grow(before.take(g as int), f, gen_before, generated@);
            assert forall|a: int, k: int|
                #![trigger tk[a]->0.modified@[k]]
                0 <= a < tk.len() && tk[a] is Some && 0 <= k < tk[a]->0.modified.len() implies {
                    &&& generated@.contains_key(tk[a]->0.modified@[k].team_id)
                    &&& field_value(tk[a]->0.modified@[k], f) == generated@[tk[a]->0.modified@[k].team_id]
                } by {
                if a < g {
                    assert(tk[a] == before.take(g as int)[a]);
                } else {
                    let b = tables@[g as int]->0;
                    assert(same_but_field(old(tables)@[g as int]->0.modified@[k], b.modified@[k], f));
                }
            }
        }
        g += 1;
    }
    assert(tables@.take(g as int) =~= tables@);
    assert(old(tables)@.take(g as int) =~= old(tables)@);
}

/// Every map's battles have new values of the field, all drawable;
/// nothing else changes.
pub open spec fn battles_redrawn(
    old_m: Seq<MapObject>,
    new_m: Seq<MapObject>,
    f: BattleField,
    pool: Seq<(u16, u16)>,
) -> bool {
    &&& new_m.len() == old_m.len()
    &&& forall|m: int| 0 <= m < old_m.len() ==> map_field_redrawn(#[trigger] old_m[m], new_m[m], f, pool)
}

/// All battles of the same team in the tables have the same value of the
/// field.
pub open spec fn teams_share_values(tables: Seq<Option<EncounterTable>>, f: BattleField) -> bool {
    exists|gen: Map<u32, u32>| #[trigger] values_from(tables, f, gen)
}

/// Every battle of every map has the value of the field that `gen` gives
/// its team.
pub open spec fn all_values_from(maps: Seq<MapObject>, f: BattleField, gen: Map<u32, u32>) -> bool {
    forall|m: int| 0 <= m < maps.len() ==> #[trigger] values_from(maps[m].stage_encounters@, f, gen)
}

/// What the grouping strategy promises of the drawn values.
pub open spec fn grouped_as(maps: Seq<MapObject>, f: BattleField, strategy: GroupStrategy) -> bool {
    &&& strategy == GroupStrategy::Party ==> exists|gen: Map<u32, u32>| #[trigger] all_values_from(maps, f, gen)
    &&& strategy == GroupStrategy::ByMap ==> forall|m: int|
        0 <= m < maps.len() ==> #[trigger] teams_share_values(maps[m].stage_encounters@, f)
}

/// Draws the field of every battle: one value for each battle, or, as the
/// strategy says, one for each team on each map or one for each team on
/// all maps.
#[verifier::spinoff_prover]
fn redraw_battles(
    maps: &mut Vec<MapObject>,
    f: BattleField,
    pool: &Vec<(u16, u16)>,
    strategy: GroupStrategy,
    draws: &Vec<u32>,
)
    requires
        f == BattleField::Music ==> 1 <= pool.len() <= u32::MAX,
        total_battles(old(maps)@) <= usize::MAX,
    ensures
        battles_redrawn(old(maps)@, final(maps)@, f, pool@),
        grouped_as(final(maps)@, f, strategy),
        battles_drawn(old(maps)@, final(maps)@, f, pool@, strategy, draws@),
{
    let mut generated: HashMap<u32, u32> = HashMap::new();
    let mut cursor: usize = 0;
    let ghost e: Map<u32, int> = Map::empty();
    let ghost grouped = strategy != GroupStrategy::Ungrouped;
    proof {
        assert(old(maps)@.take(0) =~= Seq::<MapObject>::empty());
        assert(generated@ =~= Map::<u32, u32>::empty());
    }
    let mut m: usize = 0;
    while m < maps.len()
        invariant
            m <= maps.len() == old(maps).len(),
            f == BattleField::Music ==> 1 <= pool.len() <= u32::MAX,
            forall|q: int| 0 <= q < m ==> map_field_redrawn(#[trigger] old(maps)@[q], maps@[q], f, pool@),
            forall|q: int| m <= q < maps.len() ==> #[trigger] maps@[q] == old(maps)@[q],
            valid_values(generated@, f, pool@),
            strategy == GroupStrategy::Party ==> forall|q: int|
                0 <= q < m ==> #[trigger] values_from(maps@[q].stage_encounters@, f, generated@),
            strategy == GroupStrategy::ByMap ==> forall|q: int|
                0 <= q < m ==> #[trigger] teams_share_values(maps@[q].stage_encounters@, f),
            total_battles(old(maps)@) <= usize::MAX,
            grouped == (strategy != GroupStrategy::Ungrouped),
            cursor == maps_state(old(maps)@.take(m as int), strategy, (e, 0)).1,
            gen_matches(generated@, map_entry(strategy, maps_state(old(maps)@.take(m as int), strategy, (e, 0))), f, pool@, draws@),
            strategy == GroupStrategy::Ungrouped ==> maps_state(old(maps)@.take(m as int), strategy, (e, 0)).0 == e,
            forall|q: int|
                0 <= q < m ==> {
                    &&& (#[trigger] maps@[q]).background_original == old(maps)@[q].background_original
                    &&& maps@[q].background_modified == old(maps)@[q].background_modified
                    &&& maps@[q].color == old(maps)@[q].color
                    &&& maps@[q].music_original == old(maps)@[q].music_original
                    &&& maps@[q].music_modified == old(maps)@[q].music_modified
                    &&& tables_drawn(
                        old(maps)@[q].stage_encounters@,
                        maps@[q].stage_encounters@,
                        f,
                        pool@,
                        grouped,
                        map_entry(strategy, maps_state(old(maps)@.take(q), strategy, (e, 0))),
                        draws@,
                    )
                },
        decreases maps.len() - m,
    {
        let ghost before = maps@;
        let ghost gen_before = generated@;
        let ghost sm = map_entry(strategy, maps_state(old(maps)@.take(m as int), strategy, (e, 0)));
        proof {
            assert(old(maps)@.take(m + 1).drop_last() =~= old(maps)@.take(m as int));
            assert(old(maps)@.take(m + 1).last() == old(maps)@[m as int]);
            lemma_maps_state_bound(old(maps)@.take(m as int), strategy, (e, 0));
            lemma_map_counts(old(maps)@, m + 1);
            assert(before[m as int] == old(maps)@[m as int]);
        }
        if strategy == GroupStrategy::Ungrouped {
            table_list_field(&mut maps[m].stage_encounters, f, pool, draws, &mut cursor, Ghost(sm));
        } else {
            table_list_field_grouped(&mut maps[m].stage_encounters, f, pool, &mut generated, draws, &mut cursor, Ghost(sm));
        }
        proof {
            assert forall|q: int| 0 <= q < m + 1 implies {
                &&& (#[trigger] maps@[q]).background_original == old(maps)@[q].background_original
                &&& maps@[q].background_modified == old(maps)@[q].background_modified
                &&& maps@[q].color == old(maps)@[q].color
                &&& maps@[q].music_original == old(maps)@[q].music_original
                &&& maps@[q].music_modified == old(maps)@[q].music_modified
                &&& tables_drawn(
                    old(maps)@[q].stage_encounters@,
                    maps@[q].stage_encounters@,
                    f,
                    pool@,
                    grouped,
                    map_entry(strategy, maps_state(old(maps)@.take(q), strategy, (e, 0))),
                    draws@,
                )
            } by {
                if q < m {
                    assert(maps@[q] == before[q]);
                }
            }
        }
        proof {
            assert forall|q: int| 0 <= q < m + 1 implies map_field_redrawn(#[trigger] old(maps)@[q], maps@[q], f, pool@) by {
                if q < m {
                    assert(maps@[q] == before[q]);
                }
            }
            if strategy == GroupStrategy::Party {
                assert forall|q: int| 0 <= q < m + 1 implies #[trigger] values_from(maps@[q].stage_encounters@, f, generated@) by {
                    if q < m {
                        assert(maps@[q] == before[q]);
                        lemma_values_from_grow(before[q].stage_encounters@, f, gen_before, generated@);
                    }
                }
            }
            if strategy == GroupStrategy::ByMap {
                assert forall|q: int| 0 <= q < m + 1 implies #[trigger] teams_share_values(maps@[q].stage_encounters@, f) by {
                    if q < m {
                        assert(maps@[q] == before[q]);
                        assert(teams_share_values(before[q].stage_encounters@, f));
                    } else {
                        let tq = maps@[q].stage_encounters@;
                        assert(values_from(tq, f, generated@));
                        assert(teams_share_values(tq, f));
                    }
                }
            }
        }
        if strategy == GroupStrategy::ByMap {
            generated.clear();
            proof {
                assert(generated@ =~= Map::<u32, u32>::empty());
            }
        }
        m += 1;
    }
    proof {
        if strategy == GroupStrategy::Party {
            assert(all_values_from(maps@, f, generated@));
        }
        assert(old(maps)@.take(m as int) =~= old(maps)@);
    }
}

/// Counts the draws that the battles of a list take, keeping in `seen`
/// the teams that already have one.
#[verifier::spinoff_prover]
#[verifier::rlimit(30)]
fn count_list(
    bs: &Vec<StageEncounter>,
    grouped: bool,
    seen: &mut HashMap<u32, u32>,
    cursor: &mut usize,
    Ghost(st): Ghost<DrawState>,
)
    requires
        st.1 == *old(cursor),
        *old(cursor) + bs.len() <= usize::MAX,
        old(seen)@.dom() == st.0.dom(),
    ensures
        *final(cursor) == list_state(bs@, grouped, st).1,
        final(seen)@.dom() == list_state(bs@, grouped, st).0.dom(),
{
    let mut k: usize = 0;
    while k < bs.len()
        invariant
            k <= bs.len(),
            st.1 + bs.len() <= usize::MAX,
            *cursor == list_state(bs@.take(k as int), grouped, st).1,
            seen@.dom() == list_state(bs@.take(k as int), grouped, st).0.dom(),
        decreases bs.len() - k,
    {
        proof {
            assert(bs@.take(k + 1).drop_last() =~= bs@.take(k as int));
            assert(bs@.take(k + 1).last() == bs@[k as int]);
            lemma_list_state_bound(bs@.take(k as int), grouped, st);
        }
        let team = bs[k].team_id;
        if !grouped {
            *cursor = *cursor + 1;
        } else if !seen.contains_key(&team) {
            seen.insert(team, 0);
            *cursor = *cursor + 1;
            proof {
                assert(seen@.dom() =~= list_state(bs@.take(k + 1), grouped, st).0.dom());
            }
        }
        k += 1;
    }
    assert(bs@.take(k as int) =~= bs@);
}

/// Counts the draws that the battles of the tables take.
#[verifier::spinoff_prover]
#[verifier::rlimit(30)]
fn count_table_draws(
    ts: &Vec<Option<EncounterTable>>,
    grouped: bool,
    seen: &mut HashMap<u32, u32>,
    cursor: &mut usize,
    Ghost(st): Ghost<DrawState>,
)
    requires
        st.1 == *old(cursor),
        *old(cursor) + battle_count(ts@) <= usize::MAX,
        old(seen)@.dom() == st.0.dom(),
    ensures
        *final(cursor) == tables_state(ts@, grouped, st).1,
        final(seen)@.dom() == tables_state(ts@, grouped, st).0.dom(),
{
    let mut g: usize = 0;
    while g < ts.len()
        invariant
            g <= ts.len(),
            st.1 + battle_count(ts@) <= usize::MAX,
            *cursor == tables_state(ts@.take(g as int), grouped, st).1,
            seen@.dom() == tables_state(ts@.take(g as int), grouped, st).0.dom(),
        decreases ts.len() - g,
    {
        let ghost sg = tables_state(ts@.take(g as int), grouped, st);
        proof {
            assert(ts@.take(g + 1).drop_last() =~= ts@.take(g as int));
            assert(ts@.take(g + 1).last() == ts@[g as int]);
            lemma_tables_state_bound(ts@.take(g as int), grouped, st);
            lemma_table_counts(ts@, g + 1);
        }
        match &ts[g] {
            Some(t) => count_list(&t.modified, grouped, seen, cursor, Ghost(sg)),
            None => {},
        }
        g += 1;
    }
    assert(ts@.take(g as int) =~= ts@);
}

/// How many draws redrawing the field of the maps' battles takes
/// (`draws_needed`).
fn count_draws(maps: &Vec<MapObject>, strategy: GroupStrategy) -> (n: usize)
    requires
        total_battles(maps@) <= usize::MAX,
    ensures
        n == draws_needed(maps@, strategy),
{
    let grouped = strategy != GroupStrategy::Ungrouped;
    let mut seen: HashMap<u32, u32> = HashMap::new();
    let mut cursor: usize = 0;
    let ghost e: Map<u32, int> = Map::empty();
    proof {
        assert(maps@.take(0) =~= Seq::<MapObject>::empty());
        assert(seen@.dom() =~= e.dom());
    }
    let mut m: usize = 0;
    while m < maps.len()
        invariant
            m <= maps.len(),
            total_battles(maps@) <= usize::MAX,
            grouped == (strategy != GroupStrategy::Ungrouped),
            cursor == maps_state(maps@.take(m as int), strategy, (e, 0)).1,
            seen@.dom() == map_entry(strategy, maps_state(maps@.take(m as int), strategy, (e, 0))).0.dom(),
        decreases maps.len() - m,
    {
        let ghost sm = map_entry(strategy, maps_state(maps@.take(m as int), strategy, (e, 0)));
        proof {
            assert(maps@.take(m + 1).drop_last() =~= maps@.take(m as int));
            assert(maps@.take(m + 1).last() == maps@[m as int]);
            lemma_maps_state_bound(maps@.take(m as int), strategy, (e, 0));
            lemma_map_counts(maps@, m + 1);
        }
        count_table_draws(&maps[m].stage_encounters, grouped, &mut seen, &mut cursor, Ghost(sm));
        if strategy == GroupStrategy::ByMap {
            seen.clear();
            proof {
                assert(seen@.dom() =~= Set::<u32>::empty());
                assert(map_entry(strategy, maps_state(maps@.take(m + 1), strategy, (e, 0))).0.dom() =~= Set::<u32>::empty());
            }
        }
        m += 1;
    }
    assert(maps@.take(m as int) =~= maps@);
    cursor
}

/// Draws `n` numbers with `next_u32`, in order.
fn draw_u32s(n: usize, rng: &mut Xoshiro256StarStar) -> (draws: Vec<u32>)
    ensures
        draws.len() == n,
{
    let mut draws: Vec<u32> = Vec::new();
    let mut k: usize = 0;
    while k < n
        invariant
            k <= n,
            draws.len() == k,
        decreases n - k,
    {
        draws.push(next_u32(rng));
        k += 1;
    }
    draws
}

/// Draws a background for every battle with the given draws
/// (`battles_drawn`): each battle takes the next draw, or, as the strategy
/// says, each team on each map or on all maps takes the next draw at its
/// first battle; the background is the draw modulo
/// `FIGHT_BACKGROUND_COUNT`.
pub fn random_fight_backgrounds_with_draws(maps: &mut Vec<MapObject>, strategy: GroupStrategy, draws: &Vec<u32>)
    requires
        total_battles(old(maps)@) <= usize::MAX,
    ensures
        battles_redrawn(old(maps)@, final(maps)@, BattleField::Stage, Seq::empty()),
        grouped_as(final(maps)@, BattleField::Stage, strategy),
        battles_drawn(old(maps)@, final(maps)@, BattleField::Stage, Seq::empty(), strategy, draws@),
{
    let pool: Vec<(u16, u16)> = Vec::new();
    redraw_battles(maps, BattleField::Stage, &pool, strategy, draws);
}

/// Draws a background for every battle: one for each battle, or, as the
/// strategy says, one for each team on each map or one for each team on
/// all maps. The draws are `next_u32` draws, as many as
/// `draws_needed` says, and the maps get what
/// `random_fight_backgrounds_with_draws` gives them with those draws.
pub fn random_fight_backgrounds(maps: &mut Vec<MapObject>, strategy: GroupStrategy, rng: &mut Xoshiro256StarStar)
    requires
        total_battles(old(maps)@) <= usize::MAX,
    ensures
        battles_redrawn(old(maps)@, final(maps)@, BattleField::Stage, Seq::empty()),
        grouped_as(final(maps)@, BattleField::Stage, strategy),
        exists|draws: Seq<u32>|
            #![trigger battles_drawn(old(maps)@, final(maps)@, BattleField::Stage, Seq::empty(), strategy, draws)]
            draws.len() == draws_needed(old(maps)@, strategy) && battles_drawn(
                old(maps)@,
                final(maps)@,
                BattleField::Stage,
                Seq::empty(),
                strategy,
                draws,
            ),
{
    let n = count_draws(maps, strategy);
    let draws = draw_u32s(n, rng);
    random_fight_backgrounds_with_draws(maps, strategy, &draws);
}

/// The order of a sorted set of pairs: by the first element, then by the
/// second.
pub open spec fn pair_lt(a: (u16, u16), b: (u16, u16)) -> bool {
    a.0 < b.0 || (a.0 == b.0 && a.1 < b.1)
}

/// The pairs are strictly increasing.
pub open spec fn pairs_increasing(s: Seq<(u16, u16)>) -> bool {
    forall|a: int, b: int| 0 <= a < b < s.len() ==> pair_lt(s[a], s[b])
}

/// A piece of overworld music as (track, file).
pub open spec fn music_pair(m: MusicSet) -> (u16, u16) {
    (m.sep_track, m.sep_file)
}

/// The music of a battle as (track, file): the file in bits 16 and up,
/// the track in the seven bits from bit 18.
pub open spec fn battle_music_pair(e: StageEncounter) -> (u16, u16) {
    (((e.music >> 18u32) as u16) & 0x7f, (e.music >> 16u32) as u16)
}

/// The map offers this piece of music to the pool.
pub open spec fn in_map_pool(map: MapObject, which: MusicPool, p: (u16, u16)) -> bool {
    ||| (which != MusicPool::Battle && exists|k: int|
        0 <= k < map.music_original.len() && #[trigger] music_pair(map.music_original@[k]) == p)
    ||| (which != MusicPool::Overworld && exists|g: int, k: int|
        0 <= g < map.stage_encounters.len() && map.stage_encounters@[g] is Some && 0 <= k
            < map.stage_encounters@[g]->0.original.len() && (#[trigger] map.stage_encounters@[g]->0.original@[k]).team_id
            != 0 && battle_music_pair(map.stage_encounters@[g]->0.original@[k]) == p)
}

/// Some map offers this piece of music to the pool.
pub open spec fn in_music_pool(maps: Seq<MapObject>, which: MusicPool, p: (u16, u16)) -> bool {
    exists|m: int| 0 <= m < maps.len() && in_map_pool(#[trigger] maps[m], which, p)
}

/// Adds `x` to an increasing set of pairs, keeping it increasing.
#[verifier::spinoff_prover]
fn insert_pair(set: &mut Vec<(u16, u16)>, x: (u16, u16))
    requires
        pairs_increasing(old(set)@),
    ensures
        pairs_increasing(final(set)@),
        forall|y: (u16, u16)| #[trigger] final(set)@.contains(y) <==> (old(set)@.contains(y) || y == x),
{
    let mut p: usize = 0;
    while p < set.len() && (set[p].0 < x.0 || (set[p].0 == x.0 && set[p].1 < x.1))
        invariant
            p <= set.len(),
            forall|k: int| 0 <= k < p ==> pair_lt(set@[k], x),
        decreases set.len() - p,
    {
        p += 1;
    }
    if p < set.len() && set[p].0 == x.0 && set[p].1 == x.1 {
        assert(set@[p as int] == x);
        return;
    }
    let ghost before = set@;
    set.insert(p, x);
    proof {
        before.insert_ensures(p as int, x);
        assert forall|a: int, b: int| 0 <= a < b < set@.len() implies pair_lt(set@[a], set@[b]) by {
            if b < p {
            } else if a < p && b == p {
            } else if a < p {
                assert(set@[b] == before[b - 1]);
                assert(pair_lt(before[a], before[b - 1]) || a == b - 1);
            } else if a == p {
                assert(set@[b] == before[b - 1]);
                assert(pair_lt(x, before[p as int]));
                assert(before[p as int] == before[b - 1] || pair_lt(before[p as int], before[b - 1]));
            } else {
                assert(set@[a] == before[a - 1]);
                assert(set@[b] == before[b - 1]);
            }
        }
        assert forall|y: (u16, u16)| #[trigger] set@.contains(y) <==> (before.contains(y) || y == x) by {
            if set@.contains(y) {
                let k = choose|k: int| 0 <= k < set@.len() && set@[k] == y;
                if k < p {
                    assert(before[k] == y);
                } else if k > p {
                    assert(before[k - 1] == y);
                }
            }
            if before.contains(y) {
                let k = choose|k: int| 0 <= k < before.len() && before[k] == y;
                if k < p {
                    assert(set@[k] == y);
                } else {
                    assert(set@[k + 1] == y);
                }
            }
            if y == x {
                assert(set@[p as int] == x);
            }
        }
    }
}

/// Adds the pieces of overworld music to the set.
fn add_music_sets(sets: &Vec<MusicSet>, set: &mut Vec<(u16, u16)>)
    requires
        pairs_increasing(old(set)@),
    ensures
        pairs_increasing(final(set)@),
        forall|p: (u16, u16)|
            #[trigger] final(set)@.contains(p) <==> (old(set)@.contains(p) || exists|k: int|
                0 <= k < sets.len() && #[trigger] music_pair(sets@[k]) == p),
{
    let mut k: usize = 0;
    while k < sets.len()
        invariant
            k <= sets.len(),
            pairs_increasing(set@),
            forall|p: (u16, u16)|
                #[trigger] set@.contains(p) <==> (old(set)@.contains(p) || exists|j: int|
                    0 <= j < k && #[trigger] music_pair(sets@[j]) == p),
        decreases sets.len() - k,
    {
        let m = sets[k];
        insert_pair(set, (m.sep_track, m.sep_file));
        proof {
            assert(music_pair(sets@[k as int]) == (m.sep_track, m.sep_file));
            assert forall|p: (u16, u16)|
                #[trigger] set@.contains(p) <==> (old(set)@.contains(p) || exists|j: int|
                    0 <= j < k + 1 && #[trigger] music_pair(sets@[j]) == p) by {
                if exists|j: int| 0 <= j < k + 1 && #[trigger] music_pair(sets@[j]) == p {
                    let j = choose|j: int| 0 <= j < k + 1 && #[trigger] music_pair(sets@[j]) == p;
                    if j < k {
                        assert(exists|j2: int| 0 <= j2 < k && #[trigger] music_pair(sets@[j2]) == p);
                    }
                }
            }
        }
        k += 1;
    }
}

/// Adds the music of the battles against a team to the set.
fn add_battles(battles: &Vec<StageEncounter>, set: &mut Vec<(u16, u16)>)
    requires
        pairs_increasing(old(set)@),
    ensures
        pairs_increasing(final(set)@),
        forall|p: (u16, u16)|
            #[trigger] final(set)@.contains(p) <==> (old(set)@.contains(p) || exists|k: int|
                0 <= k < battles.len() && (#[trigger] battles@[k]).team_id != 0 && battle_music_pair(battles@[k]) == p),
{
    let mut k: usize = 0;
    while k < battles.len()
        invariant
            k <= battles.len(),
            pairs_increasing(set@),
            forall|p: (u16, u16)|
                #[trigger] set@.contains(p) <==> (old(set)@.contains(p) || exists|j: int|
                    0 <= j < k && (#[trigger] battles@[j]).team_id != 0 && battle_music_pair(battles@[j]) == p),
        decreases battles.len() - k,
    {
        let e = battles[k];
        let ghost before = set@;
        if e.team_id != 0 {
            let sep_file = (e.music >> 16) as u16;
            let sep_track = ((e.music >> 18) as u16) & 0x7f;
            insert_pair(set, (sep_track, sep_file));
        }
        proof {
            assert forall|p: (u16, u16)|
                #[trigger] set@.contains(p) <==> (old(set)@.contains(p) || exists|j: int|
                    0 <= j < k + 1 && (#[trigger] battles@[j]).team_id != 0 && battle_music_pair(battles@[j]) == p) by {
                if exists|j: int| 0 <= j < k + 1 && (#[trigger] battles@[j]).team_id != 0 && battle_music_pair(battles@[j]) == p {
                    let j = choose|j: int| 0 <= j < k + 1 && (#[trigger] battles@[j]).team_id != 0 && battle_music_pair(battles@[j]) == p;
                    if j < k {
                        assert(exists|j2: int| 0 <= j2 < k && (#[trigger] battles@[j2]).team_id != 0 && battle_music_pair(battles@[j2]) == p);
                    }
                }
            }
        }
        k += 1;
    }
}

/// Adds the music of the battles of every table to the set.
fn add_tables(tables: &Vec<Option<EncounterTable>>, set: &mut Vec<(u16, u16)>)
    requires
        pairs_increasing(old(set)@),
    ensures
        pairs_increasing(final(set)@),
        forall|p: (u16, u16)|
            #[trigger] final(set)@.contains(p) <==> (old(set)@.contains(p) || exists|g: int, k: int|
                0 <= g < tables.len() && tables@[g] is Some && 0 <= k < tables@[g]->0.original.len()
                    && (#[trigger] tables@[g]->0.original@[k]).team_id != 0 && battle_music_pair(
                    tables@[g]->0.original@[k],
                ) == p),
{
    let mut g: usize = 0;
    while g < tables.len()
        invariant
            g <= tables.len(),
            pairs_increasing(set@),
            forall|p: (u16, u16)|
                #[trigger] set@.contains(p) <==> (old(set)@.contains(p) || exists|a: int, k: int|
                    0 <= a < g && tables@[a] is Some && 0 <= k < tables@[a]->0.original.len()
                        && (#[trigger] tables@[a]->0.original@[k]).team_id != 0 && battle_music_pair(
                        tables@[a]->0.original@[k],
                    ) == p),
        decreases tables.len() - g,
    {
        let ghost before = set@;
        match &tables[g] {
            Some(table) => {
                add_battles(&table.original, set);
            },
            None => {},
        }
        proof {
            assert forall|p: (u16, u16)|
                #[trigger] set@.contains(p) <==> (old(set)@.contains(p) || exists|a: int, k: int|
                    0 <= a < g + 1 && tables@[a] is Some && 0 <= k < tables@[a]->0.original.len()
                        && (#[trigger] tables@[a]->0.original@[k]).team_id != 0 && battle_music_pair(
                        tables@[a]->0.original@[k],
                    ) == p) by {
                if exists|a: int, k: int|
                    0 <= a < g + 1 && tables@[a] is Some && 0 <= k < tables@[a]->0.original.len()
                        && (#[trigger] tables@[a]->0.original@[k]).team_id != 0 && battle_music_pair(
                        tables@[a]->0.original@[k],
                    ) == p {
                    let (a, k) = choose|a: int, k: int|
                        0 <= a < g + 1 && tables@[a] is Some && 0 <= k < tables@[a]->0.original.len()
                            && (#[trigger] tables@[a]->0.original@[k]).team_id != 0 && battle_music_pair(
                            tables@[a]->0.original@[k],
                        ) == p;
                    if a == g {
                        let bs = tables@[a]->0.original;
                        assert(bs@[k].team_id != 0 && battle_music_pair(bs@[k]) == p);
                    } else {
                        assert(exists|a2: int, k2: int|
                            0 <= a2 < g && tables@[a2] is Some && 0 <= k2 < tables@[a2]->0.original.len()
                                && (#[trigger] tables@[a2]->0.original@[k2]).team_id != 0 && battle_music_pair(
                                tables@[a2]->0.original@[k2],
                            ) == p);
                    }
                }
                if set@.contains(p) && !before.contains(p) {
                    let bs = tables@[g as int]->0.original;
                    let k = choose|k: int| 0 <= k < bs.len() && (#[trigger] bs@[k]).team_id != 0 && battle_music_pair(bs@[k]) == p;
                    assert(tables@[g as int]->0.original@[k] == bs@[k]);
                }
            }
        }
        g += 1;
    }
}

/// The music of the maps that the pool draws from, as (track, file)
/// pairs in increasing order without repeats: the overworld music, the
/// music of the battles against a team, or both.
pub fn music_pool(maps: &Vec<MapObject>, which: MusicPool) -> (pool: Vec<(u16, u16)>)
    ensures
        pairs_increasing(pool@),
        forall|p: (u16, u16)| #[trigger] pool@.contains(p) <==> in_music_pool(maps@, which, p),
{
    let mut pool: Vec<(u16, u16)> = Vec::new();
    let mut m: usize = 0;
    while m < maps.len()
        invariant
            m <= maps.len(),
            pairs_increasing(pool@),
            forall|p: (u16, u16)| #[trigger] pool@.contains(p) <==> in_music_pool(maps@.take(m as int), which, p),
        decreases maps.len() - m,
    {
        let map = &maps[m];
        let ghost p0 = pool@;
        if which != MusicPool::Battle {
            add_music_sets(&map.music_original, &mut pool);
        }
        let ghost p1 = pool@;
        if which != MusicPool::Overworld {
            add_tables(&map.stage_encounters, &mut pool);
        }
        proof {
            let t1 = maps@.take(m + 1);
            let t0 = maps@.take(m as int);
            assert forall|p: (u16, u16)| #[trigger] pool@.contains(p) <==> in_music_pool(t1, which, p) by {
                if in_music_pool(t1, which, p) {
                    let q = choose|q: int| 0 <= q < t1.len() && in_map_pool(#[trigger] t1[q], which, p);
                    if q < m {
                        assert(t0[q] == t1[q]);
                        assert(in_music_pool(t0, which, p));
                    } else {
                        assert(t1[q] == maps@[m as int]);
                    }
                }
                if p0.contains(p) {
                    let q = choose|q: int| 0 <= q < t0.len() && in_map_pool(#[trigger] t0[q], which, p);
                    assert(t1[q] == t0[q]);
                }
                if pool@.contains(p) && !p0.contains(p) {
                    assert(t1[m as int] == maps@[m as int]);
                    assert(in_map_pool(t1[m as int], which, p));
                }
            }
        }
        m += 1;
    }
    assert(maps@.take(m as int) =~= maps@);
    pool
}

/// Number of pieces of overworld music of the maps, as read or as
/// changed.
pub open spec fn total_music(maps: Seq<MapObject>, modified: bool) -> int
    decreases maps.len(),
{
    if maps.len() == 0 {
        0
    } else {
        total_music(maps.drop_last(), modified) + (if modified {
            maps.last().music_modified.len() as int
        } else {
            maps.last().music_original.len() as int
        })
    }
}

/// The overworld music of the maps as changed, in order.
pub open spec fn modified_music(maps: Seq<MapObject>) -> Seq<(u16, u16)>
    decreases maps.len(),
{
    if maps.len() == 0 {
        Seq::empty()
    } else {
        modified_music(maps.drop_last()) + maps.last().music_modified@.map_values(|m: MusicSet| music_pair(m))
    }
}

/// The maps agree in everything but their overworld music, of which
/// they have as many pieces.
pub open spec fn same_but_music(a: MapObject, b: MapObject) -> bool {
    &&& a.background_original == b.background_original
    &&& a.background_modified == b.background_modified
    &&& a.color == b.color
    &&& a.music_original == b.music_original
    &&& b.music_modified.len() == a.music_modified.len()
    &&& a.stage_encounters == b.stage_encounters
}

/// Counts of a prefix of the maps are no larger than those of all of them.
proof fn lemma_total_music_prefix(maps: Seq<MapObject>, modified: bool, m: int)
    requires
        0 <= m <= maps.len(),
    ensures
        0 <= total_music(maps.take(m), modified) <= total_music(maps, modified),
    decreases maps.len(),
{
    if m == maps.len() {
        assert(maps.take(m) =~= maps);
    } else {
        assert(maps.drop_last().take(m) =~= maps.take(m));
        lemma_total_music_prefix(maps.drop_last(), modified, m);
    }
    lemma_total_music_nonneg(maps.take(m), modified);
}

/// Counts are not negative.
proof fn lemma_total_music_nonneg(maps: Seq<MapObject>, modified: bool)
    ensures
        total_music(maps, modified) >= 0,
    decreases maps.len(),
{
    if maps.len() > 0 {
        lemma_total_music_nonneg(maps.drop_last(), modified);
    }
}

/// Number of pieces of overworld music of the maps.
fn count_music(maps: &Vec<MapObject>, modified: bool) -> (n: usize)
    requires
        total_music(maps@, modified) <= usize::MAX,
    ensures
        n == total_music(maps@, modified),
{
    let mut n: usize = 0;
    let mut m: usize = 0;
    while m < maps.len()
        invariant
            m <= maps.len(),
            total_music(maps@, modified) <= usize::MAX,
            n == total_music(maps@.take(m as int), modified),
        decreases maps.len() - m,
    {
        proof {
            assert(maps@.take(m + 1).drop_last() =~= maps@.take(m as int));
            lemma_total_music_prefix(maps@, modified, m + 1);
        }
        if modified {
            n = n + maps[m].music_modified.len();
        } else {
            n = n + maps[m].music_original.len();
        }
        m += 1;
    }
    assert(maps@.take(m as int) =~= maps@);
    n
}

/// Gives the pieces of music the last drawn pairs, one pair taken from
/// the end of `drawn` for each piece in turn.
fn assign_music(sets: &mut Vec<MusicSet>, drawn: &mut Vec<(u16, u16)>)
    requires
        old(drawn).len() >= old(sets).len(),
    ensures
        final(sets).len() == old(sets).len(),
        final(drawn)@ == old(drawn)@.take(old(drawn).len() - old(sets).len()),
        forall|p: (u16, u16)|
            #![trigger occurrences(old(drawn)@, p)]
            occurrences(final(sets)@.map_values(|m: MusicSet| music_pair(m)), p) + occurrences(final(drawn)@, p)
                == occurrences(old(drawn)@, p),
        forall|k: int| 0 <= k < old(sets).len() ==> old(drawn)@.contains(#[trigger] music_pair(final(sets)@[k])),
        forall|k: int| 0 <= k < old(sets).len() ==> #[trigger] music_pair(final(sets)@[k]) == old(drawn)@[old(drawn).len() - 1 - k],
{
    let mut k: usize = 0;
    while k < sets.len()
        invariant
            k <= sets.len() == old(sets).len(),
            drawn.len() + k == old(drawn).len(),
            old(drawn).len() >= old(sets).len(),
            drawn@ == old(drawn)@.take(drawn.len() as int),
            forall|p: (u16, u16)|
                #![trigger occurrences(old(drawn)@, p)]
                occurrences(sets@.take(k as int).map_values(|m: MusicSet| music_pair(m)), p) + occurrences(drawn@, p)
                    == occurrences(old(drawn)@, p),
            forall|q: int| 0 <= q < k ==> old(drawn)@.contains(#[trigger] music_pair(sets@[q])),
            forall|q: int| 0 <= q < k ==> #[trigger] music_pair(sets@[q]) == old(drawn)@[old(drawn).len() - 1 - q],
        decreases sets.len() - k,
    {
        let ghost d_before = drawn@;
        let ghost s_before = sets@;
        let pair = drawn.pop().unwrap();
        sets.set(k, MusicSet { sep_track: pair.0, sep_file: pair.1 });
        proof {
            assert(d_before =~= drawn@.push(pair));
            assert(drawn@ =~= old(drawn)@.take(drawn.len() as int));
            assert(old(drawn)@[drawn.len() as int] == pair);
            let mk = |m: MusicSet| music_pair(m);
            assert(sets@.take(k + 1).map_values(mk) =~= s_before.take(k as int).map_values(mk).push(pair));
            assert forall|p: (u16, u16)|
                #![trigger occurrences(old(drawn)@, p)]
                occurrences(sets@.take(k + 1).map_values(mk), p) + occurrences(drawn@, p)
                    == occurrences(old(drawn)@, p) by {
                assert(occurrences(s_before.take(k as int).map_values(mk), p) + occurrences(d_before, p) == occurrences(old(drawn)@, p));
            }
            assert forall|q: int| 0 <= q < k + 1 implies old(drawn)@.contains(#[trigger] music_pair(sets@[q])) by {
                if q < k {
                    assert(sets@[q] == s_before[q]);
                }
            }
            assert forall|q: int| 0 <= q < k + 1 implies #[trigger] music_pair(sets@[q]) == old(drawn)@[old(drawn).len() - 1 - q] by {
                if q < k {
                    assert(sets@[q] == s_before[q]);
                }
            }
        }
        k += 1;
    }
    assert(sets@.take(k as int) =~= sets@);
}

/// The distinct pieces of music of the pool.
pub open spec fn pool_set(maps: Seq<MapObject>, which: MusicPool) -> Set<(u16, u16)> {
    Set::new(|p: (u16, u16)| in_music_pool(maps, which, p))
}

/// How many copies of the pool are drawn for the maps' overworld music.
pub open spec fn music_copies(maps: Seq<MapObject>, which: MusicPool) -> int {
    copies_drawn(total_music(maps, false), pool_set(maps, which).len() as int)
}

/// The pieces of the pool, in increasing order, without duplicates.
fn distinct_music_pool(maps: &Vec<MapObject>, which: MusicPool) -> (pool: Vec<(u16, u16)>)
    requires
        exists|p: (u16, u16)| in_music_pool(maps@, which, p),
    ensures
        pairs_increasing(pool@),
        pool@.no_duplicates(),
        pool.len() >= 1,
        pool.len() == pool_set(maps@, which).len(),
        forall|p: (u16, u16)| #[trigger] pool@.contains(p) <==> in_music_pool(maps@, which, p),
{
    let pool = music_pool(maps, which);
    proof {
        let w = choose|p: (u16, u16)| in_music_pool(maps@, which, p);
        assert(pool@.contains(w));
        assert(pool@.no_duplicates()) by {
            assert forall|a: int, b: int| 0 <= a < pool@.len() && 0 <= b < pool@.len() && a != b implies pool@[a]
                != pool@[b] by {
                if a < b {
                    assert(pair_lt(pool@[a], pool@[b]));
                } else {
                    assert(pair_lt(pool@[b], pool@[a]));
                }
            }
        }
        assert(pool@.to_set() =~= pool_set(maps@, which));
        pool@.unique_seq_to_set();
    }
    pool
}

/// The maps' overworld music, in order, is the vector that
/// `uniform_random_vector_with_draws` builds with the draws from the pool
/// in increasing order, read from its end.
pub open spec fn music_drawn(
    old_maps: Seq<MapObject>,
    new_maps: Seq<MapObject>,
    which: MusicPool,
    copy_draws: Seq<Seq<usize>>,
    final_draws: Seq<usize>,
) -> bool {
    let n = total_music(old_maps, false);
    exists|pool: Seq<(u16, u16)>|
        #![trigger uniform_drawn(pool, n, copy_draws, final_draws)]
        {
            &&& pairs_increasing(pool)
            &&& forall|p: (u16, u16)| #[trigger] pool.contains(p) <==> in_music_pool(old_maps, which, p)
            &&& modified_music(new_maps).len() == total_music(old_maps, true)
            &&& forall|i: int|
                0 <= i < modified_music(new_maps).len() ==> #[trigger] modified_music(new_maps)[i] == uniform_drawn(
                    pool,
                    n,
                    copy_draws,
                    final_draws,
                )[n - 1 - i]
        }
}

/// Shuffles the overworld music with the given draws (`music_drawn`): as
/// many pieces as the maps had are drawn evenly from the pool, as
/// `uniform_random_vector_with_draws` draws them, and handed out, from the
/// last drawn, to the maps' music in order. Fails when the maps have more
/// pieces to change than they had.
#[verifier::spinoff_prover]
#[verifier::rlimit(30)]
pub fn music_with_draws(
    maps: &mut Vec<MapObject>,
    which: MusicPool,
    copy_draws: &Vec<Vec<usize>>,
    final_draws: &Vec<usize>,
) -> (r: Result<(), MapsError>)
    requires
        exists|p: (u16, u16)| in_music_pool(old(maps)@, which, p),
        1 <= total_music(old(maps)@, false) <= usize::MAX / 2,
        total_music(old(maps)@, true) <= usize::MAX,
        pool_set(old(maps)@, which).len() <= usize::MAX / 2,
        copy_draws.len() == music_copies(old(maps)@, which),
        forall|d: int| 0 <= d < copy_draws.len() ==> (#[trigger] copy_draws@[d]).len() == 0 || pool_set(old(maps)@, which).len() >= 2,
        final_draws.len() == 0 || total_music(old(maps)@, false) >= 2,
    ensures
        r is Err <==> total_music(old(maps)@, true) > total_music(old(maps)@, false),
        r is Err ==> final(maps)@ == old(maps)@,
        final(maps).len() == old(maps).len(),
        forall|m: int| 0 <= m < old(maps).len() ==> same_but_music(#[trigger] old(maps)@[m], final(maps)@[m]),
        r is Ok ==> forall|m: int, k: int|
            0 <= m < old(maps).len() && 0 <= k < final(maps)@[m].music_modified.len() ==> in_music_pool(
                old(maps)@,
                which,
                #[trigger] music_pair(final(maps)@[m].music_modified@[k]),
            ),
        r is Ok && total_music(old(maps)@, true) == total_music(old(maps)@, false) ==> forall|p: (u16, u16)|
            in_music_pool(old(maps)@, which, p) ==> music_copies(old(maps)@, which) - 1 <= #[trigger] occurrences(
                modified_music(final(maps)@),
                p,
            ) <= music_copies(old(maps)@, which),
        r is Ok ==> music_drawn(old(maps)@, final(maps)@, which, draw_lists(copy_draws@), final_draws@),
{
    let pool = distinct_music_pool(maps, which);
    let pool_len = count_music(maps, false);
    let ghost n = pool.len() as int;
    let mut randomized = uniform_random_vector_with_draws(&pool, pool_len, copy_draws, final_draws);
    let needed = count_music(maps, true);
    if needed > pool_len {
        return Err(MapsError::MissingMusic);
    }
    let ghost drawn0 = randomized@;
    let mut m: usize = 0;
    while m < maps.len()
        invariant
            m <= maps.len() == old(maps).len(),
            pool_len == total_music(old(maps)@, false),
            total_music(old(maps)@, true) <= pool_len,
            randomized.len() + total_music(old(maps)@.take(m as int), true) == pool_len,
            randomized.len() <= drawn0.len(),
            randomized@ == drawn0.take(randomized.len() as int),
            forall|p: (u16, u16)|
                #![trigger occurrences(drawn0, p)]
                occurrences(modified_music(maps@.take(m as int)), p) + occurrences(randomized@, p) == occurrences(drawn0, p),
            forall|k: int| 0 <= k < drawn0.len() ==> pool@.contains(#[trigger] drawn0[k]),
            forall|q: int| 0 <= q < maps.len() ==> same_but_music(#[trigger] old(maps)@[q], maps@[q]),
            forall|q: int| m <= q < maps.len() ==> #[trigger] maps@[q] == old(maps)@[q],
            forall|q: int, k: int|
                0 <= q < m && 0 <= k < maps@[q].music_modified.len() ==> pool@.contains(
                    #[trigger] music_pair(maps@[q].music_modified@[k]),
                ),
            drawn0.len() == pool_len,
            modified_music(maps@.take(m as int)).len() + randomized.len() == pool_len,
            forall|i: int|
                0 <= i < modified_music(maps@.take(m as int)).len() ==> #[trigger] modified_music(maps@.take(m as int))[i]
                    == drawn0[pool_len - 1 - i],
        decreases maps.len() - m,
    {
        let ghost before = maps@;
        let ghost r_before = randomized@;
        proof {
            assert(old(maps)@.take(m + 1).drop_last() =~= old(maps)@.take(m as int));
            lemma_total_music_prefix(old(maps)@, true, m + 1);
        }
        assign_music(&mut maps[m].music_modified, &mut randomized);
        proof {
            let mk = |x: MusicSet| music_pair(x);
            assert(maps@.take(m + 1).drop_last() =~= before.take(m as int));
            assert(randomized@ == r_before.take(randomized.len() as int));
            assert(randomized@ =~= drawn0.take(randomized.len() as int));
            assert forall|p: (u16, u16)|
                #![trigger occurrences(drawn0, p)]
                occurrences(modified_music(maps@.take(m + 1)), p) + occurrences(randomized@, p) == occurrences(drawn0, p) by {
                let head = modified_music(before.take(m as int));
                let tail = maps@[m as int].music_modified@.map_values(mk);
                assert(maps@.take(m + 1).last() == maps@[m as int]);
                assert(modified_music(maps@.take(m + 1)) == head + tail);
                vstd::seq_lib::lemma_multiset_commutative(head, tail);
                assert(occurrences(tail, p) + occurrences(randomized@, p) == occurrences(r_before, p));
            }
            {
                let head = modified_music(before.take(m as int));
                let tail = maps@[m as int].music_modified@.map_values(mk);
                assert(maps@.take(m + 1).last() == maps@[m as int]);
                assert(modified_music(maps@.take(m + 1)) == head + tail);
                assert forall|i: int|
                    0 <= i < modified_music(maps@.take(m + 1)).len() implies #[trigger] modified_music(maps@.take(m + 1))[i]
                        == drawn0[pool_len - 1 - i] by {
                    if i >= head.len() {
                        let k = i - head.len();
                        assert(tail[k] == music_pair(maps@[m as int].music_modified@[k]));
                        assert(r_before[r_before.len() - 1 - k] == drawn0[r_before.len() - 1 - k]);
                    }
                }
            }
            assert forall|q: int| 0 <= q < maps.len() implies same_but_music(#[trigger] old(maps)@[q], maps@[q]) by {
                if q != m {
                    assert(maps@[q] == before[q]);
                }
            }
            assert forall|q: int, k: int|
                0 <= q < m + 1 && 0 <= k < maps@[q].music_modified.len() implies pool@.contains(
                    #[trigger] music_pair(maps@[q].music_modified@[k])) by {
                if q < m {
                    assert(maps@[q] == before[q]);
                } else {
                    let x = music_pair(maps@[q].music_modified@[k]);
                    assert(r_before.contains(x));
                    let j = choose|j: int| 0 <= j < r_before.len() && r_before[j] == x;
                    assert(r_before[j] == drawn0[j]);
                }
            }
        }
        m += 1;
    }
    proof {
        assert(maps@.take(m as int) =~= maps@);
        assert(old(maps)@.take(m as int) =~= old(maps)@);
        pool@.lemma_multiset_has_no_duplicates();
        assert(drawn0 == uniform_drawn(pool@, pool_len as int, draw_lists(copy_draws@), final_draws@));
        assert(modified_music(maps@).len() == total_music(old(maps)@, true));
        if total_music(old(maps)@, true) == total_music(old(maps)@, false) {
            assert forall|p: (u16, u16)| in_music_pool(old(maps)@, which, p) implies music_copies(old(maps)@, which) - 1
                <= #[trigger] occurrences(modified_music(maps@), p) <= music_copies(old(maps)@, which) by {
                assert(pool@.contains(p));
                assert(pool@.to_multiset().contains(p));
                assert(occurrences(pool@, p) == 1);
                assert(randomized@.len() == 0);
                assert(!randomized@.contains(p));
                assert(occurrences(modified_music(maps@), p) + occurrences(randomized@, p) == occurrences(drawn0, p));
            }
        }
    }
    Ok(())
}


/// Shuffles the overworld music: as many pieces as the maps had are drawn
/// evenly from the pool and handed out, from the last drawn, to the
/// maps' music in order. Fails when the maps have more pieces to change
/// than they had. The draws come from the generator as
/// `uniform_random_vector` takes them, and the maps get what
/// `music_with_draws` gives them with those draws.
#[verifier::spinoff_prover]
#[verifier::rlimit(30)]
pub fn music(maps: &mut Vec<MapObject>, which: MusicPool, shuffles: u8, rng: &mut Xoshiro256StarStar) -> (r: Result<
    (),
    MapsError,
>)
    requires
        exists|p: (u16, u16)| in_music_pool(old(maps)@, which, p),
        1 <= total_music(old(maps)@, false) <= usize::MAX / 2,
        total_music(old(maps)@, true) <= usize::MAX,
        pool_set(old(maps)@, which).len() <= usize::MAX / 2,
    ensures
        r is Err <==> total_music(old(maps)@, true) > total_music(old(maps)@, false),
        r is Err ==> final(maps)@ == old(maps)@,
        final(maps).len() == old(maps).len(),
        forall|m: int| 0 <= m < old(maps).len() ==> same_but_music(#[trigger] old(maps)@[m], final(maps)@[m]),
        r is Ok ==> forall|m: int, k: int|
            0 <= m < old(maps).len() && 0 <= k < final(maps)@[m].music_modified.len() ==> in_music_pool(
                old(maps)@,
                which,
                #[trigger] music_pair(final(maps)@[m].music_modified@[k]),
            ),
        r is Ok && total_music(old(maps)@, true) == total_music(old(maps)@, false) ==> forall|p: (u16, u16)|
            in_music_pool(old(maps)@, which, p) ==> music_copies(old(maps)@, which) - 1 <= #[trigger] occurrences(
                modified_music(final(maps)@),
                p,
            ) <= music_copies(old(maps)@, which),
        r is Ok ==> exists|copy_draws: Seq<Seq<usize>>, final_draws: Seq<usize>|
            #![trigger music_drawn(old(maps)@, final(maps)@, which, copy_draws, final_draws)]
            {
                &&& copy_draws.len() == music_copies(old(maps)@, which)
                &&& forall|d: int| 0 <= d < copy_draws.len() ==> (#[trigger] copy_draws[d]).len() == draw_count(
                    pool_set(old(maps)@, which).len() as int,
                    shuffles as int,
                )
                &&& final_draws.len() == draw_count(total_music(old(maps)@, false), shuffles as int)
                &&& music_drawn(old(maps)@, final(maps)@, which, copy_draws, final_draws)
            },
{
    let n = distinct_music_pool(maps, which).len();
    let pool_len = count_music(maps, false);
    let (copy_draws, final_draws) = uniform_draws(n, pool_len, shuffles, rng);
    let r = music_with_draws(maps, which, &copy_draws, &final_draws);
    proof {
        let cds = draw_lists(copy_draws@);
        assert(forall|d: int| 0 <= d < cds.len() ==> #[trigger] cds[d] == copy_draws@[d]@);
        assert(forall|d: int| 0 <= d < cds.len() ==> (#[trigger] cds[d]).len() == draw_count(n as int, shuffles as int));
    }
    r
}

/// `a` is `b` with some elements left out: `idx` picks, in increasing
/// order, the places of `b` that make up `a`.
pub open spec fn subsequence_at<T>(a: Seq<T>, b: Seq<T>, idx: Seq<int>) -> bool {
    &&& idx.len() == a.len()
    &&& forall|k: int| 0 <= k < a.len() ==> 0 <= #[trigger] idx[k] < b.len() && b[idx[k]] == a[k]
    &&& forall|k1: int, k2: int| 0 <= k1 < k2 < a.len() ==> #[trigger] idx[k1] < #[trigger] idx[k2]
}

/// The pool of both kinds of music holds exactly what the overworld pool
/// and the battle pool hold.
pub proof fn lemma_pool_union(maps: Seq<MapObject>, p: (u16, u16))
    ensures
        in_music_pool(maps, MusicPool::Both, p) <==> (in_music_pool(maps, MusicPool::Overworld, p) || in_music_pool(
            maps,
            MusicPool::Battle,
            p,
        )),
{
    if in_music_pool(maps, MusicPool::Both, p) {
        let m = choose|m: int| 0 <= m < maps.len() && in_map_pool(#[trigger] maps[m], MusicPool::Both, p);
        assert(in_map_pool(maps[m], MusicPool::Overworld, p) || in_map_pool(maps[m], MusicPool::Battle, p));
    }
    if in_music_pool(maps, MusicPool::Overworld, p) {
        let m = choose|m: int| 0 <= m < maps.len() && in_map_pool(#[trigger] maps[m], MusicPool::Overworld, p);
        assert(in_map_pool(maps[m], MusicPool::Both, p));
    }
    if in_music_pool(maps, MusicPool::Battle, p) {
        let m = choose|m: int| 0 <= m < maps.len() && in_map_pool(#[trigger] maps[m], MusicPool::Battle, p);
        assert(in_map_pool(maps[m], MusicPool::Both, p));
    }
}

/// The overworld pool and the battle pool, as `music_pool` gives them,
/// are each the pool of both kinds with some pieces left out, in the same
/// order.
pub proof fn lemma_pool_subsequence(maps: Seq<MapObject>, which: MusicPool, a: Seq<(u16, u16)>, b: Seq<(u16, u16)>)
    requires
        pairs_increasing(a),
        pairs_increasing(b),
        forall|p: (u16, u16)| #[trigger] a.contains(p) <==> in_music_pool(maps, which, p),
        forall|p: (u16, u16)| #[trigger] b.contains(p) <==> in_music_pool(maps, MusicPool::Both, p),
    ensures
        exists|idx: Seq<int>| subsequence_at(a, b, idx),
{
    assert forall|k: int| #![trigger a[k]] 0 <= k < a.len() implies exists|i: int| 0 <= i < b.len() && #[trigger] b[i] == a[k] by {
        assert(a.contains(a[k]));
        lemma_pool_union(maps, a[k]);
        assert(b.contains(a[k]));
        let i = choose|i: int| 0 <= i < b.len() && b[i] == a[k];
        assert(b[i] == a[k]);
    }
    let idx = Seq::new(a.len(), |k: int| choose|i: int| 0 <= i < b.len() && b[i] == a[k]);
    assert forall|k1: int, k2: int| 0 <= k1 < k2 < a.len() implies #[trigger] idx[k1] < #[trigger] idx[k2] by {
        assert(pair_lt(a[k1], a[k2]));
        if idx[k2] < idx[k1] {
            assert(pair_lt(b[idx[k2]], b[idx[k1]]));
        }
    }
    assert(subsequence_at(a, b, idx));
}

/// Number of the tables that exist.
pub open spec fn table_count(tables: Seq<Option<EncounterTable>>) -> int
    decreases tables.len(),
{
    if tables.len() == 0 {
        0
    } else {
        table_count(tables.drop_last()) + (if tables.last() is Some { 1int } else { 0int })
    }
}

/// Number of battles, as changed, of the tables.
pub open spec fn battle_count(tables: Seq<Option<EncounterTable>>) -> int
    decreases tables.len(),
{
    if tables.len() == 0 {
        0
    } else {
        battle_count(tables.drop_last()) + match tables.last() {
            Some(t) => t.modified.len() as int,
            None => 0int,
        }
    }
}

/// Number of tables of all maps.
pub open spec fn total_tables(maps: Seq<MapObject>) -> int
    decreases maps.len(),
{
    if maps.len() == 0 {
        0
    } else {
        total_tables(maps.drop_last()) + table_count(maps.last().stage_encounters@)
    }
}

/// Number of battles of all maps.
pub open spec fn total_battles(maps: Seq<MapObject>) -> int
    decreases maps.len(),
{
    if maps.len() == 0 {
        0
    } else {
        total_battles(maps.drop_last()) + battle_count(maps.last().stage_encounters@)
    }
}

/// Counts are not negative, and a prefix has no more.
proof fn lemma_table_counts(tables: Seq<Option<EncounterTable>>, g: int)
    requires
        0 <= g <= tables.len(),
    ensures
        0 <= table_count(tables.take(g)) <= table_count(tables),
        0 <= battle_count(tables.take(g)) <= battle_count(tables),
    decreases tables.len(),
{
    if g == tables.len() {
        assert(tables.take(g) =~= tables);
        if g > 0 {
            lemma_table_counts(tables.drop_last(), g - 1);
            assert(tables.drop_last().take(g - 1) =~= tables.drop_last());
        }
    } else {
        assert(tables.drop_last().take(g) =~= tables.take(g));
        lemma_table_counts(tables.drop_last(), g);
    }
}

/// Counts over all maps are not negative, and a prefix has no more.
proof fn lemma_map_counts(maps: Seq<MapObject>, m: int)
    requires
        0 <= m <= maps.len(),
    ensures
        0 <= total_tables(maps.take(m)) <= total_tables(maps),
        0 <= total_battles(maps.take(m)) <= total_battles(maps),
    decreases maps.len(),
{
    if maps.len() > 0 {
        let t = maps.last().stage_encounters@;
        lemma_table_counts(t, t.len() as int);
    }
    if m == maps.len() {
        assert(maps.take(m) =~= maps);
        if m > 0 {
            lemma_map_counts(maps.drop_last(), m - 1);
            assert(maps.drop_last().take(m - 1) =~= maps.drop_last());
        }
    } else {
        assert(maps.drop_last().take(m) =~= maps.take(m));
        lemma_map_counts(maps.drop_last(), m);
    }
}

/// Numbers of tables and of battles of the maps.
fn count_tables(maps: &Vec<MapObject>) -> (r: (usize, usize))
    requires
        total_tables(maps@) <= usize::MAX,
        total_battles(maps@) <= usize::MAX,
    ensures
        r.0 == total_tables(maps@),
        r.1 == total_battles(maps@),
{
    let mut nt: usize = 0;
    let mut nb: usize = 0;
    let mut m: usize = 0;
    while m < maps.len()
        invariant
            m <= maps.len(),
            total_tables(maps@) <= usize::MAX,
            total_battles(maps@) <= usize::MAX,
            nt == total_tables(maps@.take(m as int)),
            nb == total_battles(maps@.take(m as int)),
        decreases maps.len() - m,
    {
        proof {
            assert(maps@.take(m + 1).drop_last() =~= maps@.take(m as int));
            lemma_map_counts(maps@, m + 1);
        }
        let tables = &maps[m].stage_encounters;
        let mut g: usize = 0;
        while g < tables.len()
            invariant
                g <= tables.len(),
                tables@ == maps@[m as int].stage_encounters@,
                m < maps.len(),
                total_tables(maps@.take(m as int)) + table_count(tables@) <= usize::MAX,
                total_battles(maps@.take(m as int)) + battle_count(tables@) <= usize::MAX,
                nt == total_tables(maps@.take(m as int)) + table_count(tables@.take(g as int)),
                nb == total_battles(maps@.take(m as int)) + battle_count(tables@.take(g as int)),
            decreases tables.len() - g,
        {
            proof {
                assert(tables@.take(g + 1).drop_last() =~= tables@.take(g as int));
                lemma_table_counts(tables@, g + 1);
                lemma_table_counts(tables@, g as int);
            }
            match &tables[g] {
                Some(t) => {
                    nt = nt + 1;
                    nb = nb + t.modified.len();
                },
                None => {},
            }
            g += 1;
        }
        proof {
            assert(tables@.take(g as int) =~= tables@);
            assert(maps@.take(m + 1).last() == maps@[m as int]);
        }
        m += 1;
    }
    assert(maps@.take(m as int) =~= maps@);
    (nt, nb)
}

/// The music of the battles, as changed, of the tables, in order.
pub open spec fn table_musics(tables: Seq<Option<EncounterTable>>) -> Seq<u32>
    decreases tables.len(),
{
    if tables.len() == 0 {
        Seq::empty()
    } else {
        table_musics(tables.drop_last()) + match tables.last() {
            Some(t) => t.modified@.map_values(|e: StageEncounter| e.music),
            None => Seq::empty(),
        }
    }
}

/// The music of the battles of all maps, in order.
pub open spec fn battle_musics(maps: Seq<MapObject>) -> Seq<u32>
    decreases maps.len(),
{
    if maps.len() == 0 {
        Seq::empty()
    } else {
        battle_musics(maps.drop_last()) + table_musics(maps.last().stage_encounters@)
    }
}

/// The music of the sound files of the last `n` pieces of `d`, from the
/// last one back.
pub open spec fn last_files(d: Seq<(u16, u16)>, n: int) -> Seq<u32> {
    Seq::new(n as nat, |k: int| music_of_file(d[d.len() - 1 - k].1))
}

/// Taking `c` pieces and then `n` more from the end is taking `c + n`.
proof fn lemma_last_files_split(d: Seq<(u16, u16)>, c: int, n: int)
    requires
        0 <= c,
        0 <= n,
        c + n <= d.len(),
    ensures
        last_files(d, c + n) == last_files(d, c) + last_files(d.take(d.len() - c), n),
{
    let t = d.take(d.len() - c);
    assert forall|k: int| c <= k < c + n implies #[trigger] last_files(d, c + n)[k] == last_files(t, n)[k - c] by {
        assert(t[t.len() - 1 - (k - c)] == d[d.len() - 1 - k]);
    }
    assert(last_files(d, c + n) =~= last_files(d, c) + last_files(t, n));
}

/// Gives the battles the music of the last drawn pairs, one pair taken
/// from the end of `drawn` for each battle in turn.
#[verifier::spinoff_prover]
fn assign_battle_music(battles: &mut Vec<StageEncounter>, drawn: &mut Vec<(u16, u16)>)
    requires
        old(drawn).len() >= old(battles).len(),
    ensures
        final(battles).len() == old(battles).len(),
        final(drawn)@ == old(drawn)@.take(old(drawn).len() - old(battles).len()),
        forall|k: int|
            #![trigger final(battles)@[k]]
            0 <= k < old(battles).len() ==> same_but_field(old(battles)@[k], final(battles)@[k], BattleField::Music)
                && drawable(final(battles)@[k].music, BattleField::Music, old(drawn)@),
        final(battles)@.map_values(|e: StageEncounter| e.music) == last_files(old(drawn)@, old(battles).len() as int),
{
    let mut k: usize = 0;
    while k < battles.len()
        invariant
            k <= battles.len() == old(battles).len(),
            drawn.len() + k == old(drawn).len(),
            old(drawn).len() >= old(battles).len(),
            drawn@ == old(drawn)@.take(drawn.len() as int),
            forall|q: int|
                #![trigger battles@[q]]
                0 <= q < k ==> same_but_field(old(battles)@[q], battles@[q], BattleField::Music) && drawable(
                    battles@[q].music,
                    BattleField::Music,
                    old(drawn)@,
                ),
            forall|q: int| k <= q < battles.len() ==> #[trigger] battles@[q] == old(battles)@[q],
            forall|q: int|
                0 <= q < k ==> (#[trigger] battles@[q]).music == music_of_file(
                    old(drawn)@[old(drawn).len() - 1 - q].1,
                ),
        decreases battles.len() - k,
    {
        let ghost d_before = drawn@;
        let ghost before = battles@;
        let pair = drawn.pop().unwrap();
        battles[k].music = (pair.1 as u32) << 16;
        proof {
            assert(d_before =~= drawn@.push(pair));
            assert(drawn@ =~= old(drawn)@.take(drawn.len() as int));
            assert(old(drawn)@[drawn.len() as int] == pair);
            assert(battles@[k as int].music == music_of_file(old(drawn)@[drawn.len() as int].1));
            assert forall|q: int|
                #![trigger battles@[q]]
                0 <= q < k + 1 implies same_but_field(old(battles)@[q], battles@[q], BattleField::Music)
                    && drawable(battles@[q].music, BattleField::Music, old(drawn)@) by {
                if q < k {
                    assert(battles@[q] == before[q]);
                    assert(same_but_field(old(battles)@[q], before[q], BattleField::Music));
                }
            }
            assert forall|q: int|
                0 <= q < k + 1 implies (#[trigger] battles@[q]).music == music_of_file(
                    old(drawn)@[old(drawn).len() - 1 - q].1,
                ) by {
                if q < k {
                    assert(battles@[q] == before[q]);
                }
            }
        }
        k += 1;
    }
    assert(battles@.map_values(|e: StageEncounter| e.music) =~= last_files(old(drawn)@, old(battles).len() as int));
}

/// Gives the battles of every table music taken from the end of `drawn`.
fn assign_tables_music(tables: &mut Vec<Option<EncounterTable>>, drawn: &mut Vec<(u16, u16)>)
    requires
        old(drawn).len() >= battle_count(old(tables)@),
    ensures
        final(tables).len() == old(tables).len(),
        final(drawn)@ == old(drawn)@.take(old(drawn).len() - battle_count(old(tables)@)),
        forall|g: int|
            0 <= g < old(tables).len() ==> table_field_redrawn(
                #[trigger] old(tables)@[g],
                final(tables)@[g],
                BattleField::Music,
                old(drawn)@,
            ),
        table_musics(final(tables)@) == last_files(old(drawn)@, battle_count(old(tables)@)),
{
    let mut g: usize = 0;
    while g < tables.len()
        invariant
            g <= tables.len() == old(tables).len(),
            old(drawn).len() >= battle_count(old(tables)@),
            drawn.len() + battle_count(old(tables)@.take(g as int)) == old(drawn).len(),
            drawn.len() <= old(drawn).len(),
            drawn@ == old(drawn)@.take(drawn.len() as int),
            forall|q: int|
                0 <= q < g ==> table_field_redrawn(#[trigger] old(tables)@[q], tables@[q], BattleField::Music, old(drawn)@),
            forall|q: int| g <= q < tables.len() ==> #[trigger] tables@[q] == old(tables)@[q],
            table_musics(tables@.take(g as int)) == last_files(old(drawn)@, battle_count(old(tables)@.take(g as int))),
            battle_count(old(tables)@.take(g as int)) >= 0,
        decreases tables.len() - g,
    {
        let ghost before = tables@;
        let ghost d_before = drawn@;
        proof {
            assert(old(tables)@.take(g + 1).drop_last() =~= old(tables)@.take(g as int));
            lemma_table_counts(old(tables)@, g + 1);
            lemma_table_counts(old(tables)@.take(g + 1), g as int);
            assert(old(tables)@.take(g + 1).take(g as int) =~= old(tables)@.take(g as int));
            assert(old(tables)@.take(g + 1).last() == old(tables)@[g as int]);
        }
        let t = &mut tables[g];
        match t {
            Some(table) => {
                assign_battle_music(&mut table.modified, drawn);
            },
            None => {},
        }
        proof {
            let c = battle_count(old(tables)@.take(g as int));
            let n = match old(tables)@[g as int] {
                Some(t) => t.modified.len() as int,
                None => 0int,
            };
            lemma_last_files_split(old(drawn)@, c, n);
            assert(old(drawn)@.take(old(drawn).len() - c) =~= d_before);
            assert(tables@.take(g + 1).drop_last() =~= tables@.take(g as int));
            assert(tables@.take(g as int) =~= before.take(g as int));
            assert(tables@.take(g + 1).last() == tables@[g as int]);
            let mine = match tables@[g as int] {
                Some(t) => t.modified@.map_values(|e: StageEncounter| e.music),
                None => Seq::<u32>::empty(),
            };
            assert(mine == last_files(d_before, n));
            assert(table_musics(tables@.take(g + 1)) == table_musics(tables@.take(g as int)) + mine);
            assert(battle_count(old(tables)@.take(g + 1)) == c + n);
        }
        proof {
            assert(drawn@ =~= old(drawn)@.take(drawn.len() as int));
            assert forall|q: int|
                0 <= q < g + 1 implies table_field_redrawn(#[trigger] old(tables)@[q], tables@[q], BattleField::Music, old(drawn)@) by {
                if q < g {
                    assert(tables@[q] == before[q]);
                }
                if q == g && tables@[q] is Some {
                    let a = old(tables)@[q]->0;
                    let b = tables@[q]->0;
                    assert forall|k: int| 0 <= k < a.modified.len() implies same_but_field(#[trigger] a.modified@[k], b.modified@[k], BattleField::Music)
                        && drawable(field_value(b.modified@[k], BattleField::Music), BattleField::Music, old(drawn)@) by {
                        assert(same_but_field(a.modified@[k], b.modified@[k], BattleField::Music));
                        assert(drawable(b.modified@[k].music, BattleField::Music, d_before));
                        let j = choose|j: int| 0 <= j < d_before.len() && b.modified@[k].music == music_of_file(#[trigger] d_before[j].1);
                        assert(d_before[j] == old(drawn)@[j]);
                    }
                }
            }
        }
        g += 1;
    }
    assert(old(tables)@.take(g as int) =~= old(tables)@);
    assert(tables@.take(g as int) =~= tables@);
}

/// A drawn value stays drawable from a pool that holds what it was drawn
/// from.
proof fn lemma_drawable_from_pool(v: u32, src: Seq<(u16, u16)>, pool: Seq<(u16, u16)>)
    requires
        drawable(v, BattleField::Music, src),
        forall|k: int| 0 <= k < src.len() ==> pool.contains(#[trigger] src[k]),
    ensures
        drawable(v, BattleField::Music, pool),
{
    let j = choose|j: int| 0 <= j < src.len() && v == music_of_file(#[trigger] src[j].1);
    assert(pool.contains(src[j]));
    let i = choose|i: int| 0 <= i < pool.len() && pool[i] == src[j];
    assert(v == music_of_file(pool[i].1));
}

/// The battle music is drawn from the pool: each battle plays the sound
/// file of a piece of the pool, and nothing else changes.
pub open spec fn battle_music_drawn(old_m: Seq<MapObject>, new_m: Seq<MapObject>, which: MusicPool) -> bool {
    exists|pool: Seq<(u16, u16)>|
        #![trigger battles_redrawn(old_m, new_m, BattleField::Music, pool)]
        (forall|p: (u16, u16)| #[trigger] pool.contains(p) ==> in_music_pool(old_m, which, p)) && battles_redrawn(
            old_m,
            new_m,
            BattleField::Music,
            pool,
        )
}

/// The battles' music was drawn with the given draws (`battles_drawn`)
/// from the pool in increasing order.
pub open spec fn grouped_music_drawn(
    old_m: Seq<MapObject>,
    new_m: Seq<MapObject>,
    which: MusicPool,
    strategy: GroupStrategy,
    draws: Seq<u32>,
) -> bool {
    exists|pool: Seq<(u16, u16)>|
        #![trigger battles_drawn(old_m, new_m, BattleField::Music, pool, strategy, draws)]
        {
            &&& pairs_increasing(pool)
            &&& forall|p: (u16, u16)| #[trigger] pool.contains(p) <==> in_music_pool(old_m, which, p)
            &&& battles_drawn(old_m, new_m, BattleField::Music, pool, strategy, draws)
        }
}

/// Gives each team, on each map or on all maps as the strategy says, a
/// piece of the pool with the given draws (`grouped_music_drawn`): the
/// team's first battle takes the next draw, and the piece is the one of
/// the pool, in increasing order, at the draw modulo the pool's size.
pub fn battle_music_grouped_with_draws(
    maps: &mut Vec<MapObject>,
    which: MusicPool,
    strategy: GroupStrategy,
    draws: &Vec<u32>,
)
    requires
        exists|p: (u16, u16)| in_music_pool(old(maps)@, which, p),
        pool_set(old(maps)@, which).len() <= u32::MAX,
        strategy != GroupStrategy::Ungrouped,
        total_battles(old(maps)@) <= usize::MAX,
    ensures
        battle_music_drawn(old(maps)@, final(maps)@, which),
        grouped_as(final(maps)@, BattleField::Music, strategy),
        grouped_music_drawn(old(maps)@, final(maps)@, which, strategy, draws@),
{
    let pool = distinct_music_pool(maps, which);
    redraw_battles(maps, BattleField::Music, &pool, strategy, draws);
    proof {
        assert(battles_redrawn(old(maps)@, maps@, BattleField::Music, pool@));
        assert(battles_drawn(old(maps)@, maps@, BattleField::Music, pool@, strategy, draws@));
    }
}

/// The pieces are the vector that `uniform_random_vector_with_draws`
/// builds, `n` long, with some draws from the pool in increasing order.
pub open spec fn music_vector_drawn(drawn: Seq<(u16, u16)>, maps: Seq<MapObject>, which: MusicPool, n: int) -> bool {
    exists|pool: Seq<(u16, u16)>, copy_draws: Seq<Seq<usize>>, final_draws: Seq<usize>|
        #![trigger uniform_drawn(pool, n, copy_draws, final_draws)]
        {
            &&& pairs_increasing(pool)
            &&& forall|p: (u16, u16)| #[trigger] pool.contains(p) <==> in_music_pool(maps, which, p)
            &&& drawn == uniform_drawn(pool, n, copy_draws, final_draws)
        }
}

/// Shuffles the battle music. With no grouping, as many pieces of the
/// pool as there are encounter tables are drawn evenly, and handed out,
/// from the last drawn, to the battles in order: this fails when there
/// are more battles than tables. Otherwise every team (on each map, or on
/// all maps) is given a piece drawn from the pool. A battle's music is the
/// sound file of its piece in the upper half.
#[verifier::spinoff_prover]
#[verifier::rlimit(30)]
pub fn battle_music(
    maps: &mut Vec<MapObject>,
    which: MusicPool,
    strategy: GroupStrategy,
    shuffles: u8,
    rng: &mut Xoshiro256StarStar,
) -> (r: Result<(), MapsError>)
    requires
        exists|p: (u16, u16)| in_music_pool(old(maps)@, which, p),
        pool_set(old(maps)@, which).len() <= u32::MAX,
        pool_set(old(maps)@, which).len() <= usize::MAX / 2,
        strategy == GroupStrategy::Ungrouped ==> 1 <= total_tables(old(maps)@) <= usize::MAX / 2,
        total_battles(old(maps)@) <= usize::MAX,
    ensures
        r is Err <==> (strategy == GroupStrategy::Ungrouped && total_battles(old(maps)@) > total_tables(old(maps)@)),
        r is Ok && strategy != GroupStrategy::Ungrouped ==> exists|draws: Seq<u32>|
            #![trigger grouped_music_drawn(old(maps)@, final(maps)@, which, strategy, draws)]
            draws.len() == draws_needed(old(maps)@, strategy) && grouped_music_drawn(
                old(maps)@,
                final(maps)@,
                which,
                strategy,
                draws,
            ),
        r is Err ==> final(maps)@ == old(maps)@,
        r is Ok ==> battle_music_drawn(old(maps)@, final(maps)@, which),
        r is Ok ==> grouped_as(final(maps)@, BattleField::Music, strategy),
        r is Ok && strategy == GroupStrategy::Ungrouped ==> exists|drawn: Seq<(u16, u16)>|
            #![trigger last_files(drawn, total_battles(old(maps)@))]
            {
                &&& drawn.len() == total_tables(old(maps)@)
                &&& forall|k: int| 0 <= k < drawn.len() ==> in_music_pool(old(maps)@, which, #[trigger] drawn[k])
                &&& forall|p: (u16, u16)|
                    in_music_pool(old(maps)@, which, p) ==> {
                        let copies = copies_drawn(total_tables(old(maps)@), pool_set(old(maps)@, which).len() as int);
                        copies - 1 <= #[trigger] occurrences(drawn, p) <= copies
                    }
                &&& battle_musics(final(maps)@) == last_files(drawn, total_battles(old(maps)@))
                &&& music_vector_drawn(drawn, old(maps)@, which, total_tables(old(maps)@))
            },
{
    if strategy != GroupStrategy::Ungrouped {
        let n = count_draws(maps, strategy);
        let draws = draw_u32s(n, rng);
        battle_music_grouped_with_draws(maps, which, strategy, &draws);
        return Ok(());
    }
    let pool = music_pool(maps, which);
    proof {
        let w = choose|p: (u16, u16)| in_music_pool(old(maps)@, which, p);
        assert(pool@.contains(w));
        assert(pool@.no_duplicates()) by {
            assert forall|a: int, b: int| 0 <= a < pool@.len() && 0 <= b < pool@.len() && a != b implies pool@[a]
                != pool@[b] by {
                if a < b {
                    assert(pair_lt(pool@[a], pool@[b]));
                } else {
                    assert(pair_lt(pool@[b], pool@[a]));
                }
            }
        }
        assert(pool@.to_set() =~= pool_set(old(maps)@, which));
        pool@.unique_seq_to_set();
    }
    let (pool_len, needed) = count_tables(maps);
    let (copy_draws, final_draws) = uniform_draws(pool.len(), pool_len, shuffles, rng);
    let mut randomized = uniform_random_vector_with_draws(&pool, pool_len, &copy_draws, &final_draws);
    proof {
        assert(music_vector_drawn(randomized@, old(maps)@, which, pool_len as int)) by {
            assert(randomized@ == uniform_drawn(pool@, pool_len as int, draw_lists(copy_draws@), final_draws@));
        }
    }
    if needed > pool_len {
        return Err(MapsError::MissingMusic);
    }
    let ghost drawn0 = randomized@;
    let mut m: usize = 0;
    while m < maps.len()
        invariant
            m <= maps.len() == old(maps).len(),
            pool_len == total_tables(old(maps)@),
            total_battles(old(maps)@) <= pool_len,
            randomized.len() + total_battles(old(maps)@.take(m as int)) == pool_len,
            randomized.len() <= drawn0.len(),
            randomized@ == drawn0.take(randomized.len() as int),
            forall|k: int| 0 <= k < drawn0.len() ==> pool@.contains(#[trigger] drawn0[k]),
            forall|q: int|
                0 <= q < m ==> map_field_redrawn(#[trigger] old(maps)@[q], maps@[q], BattleField::Music, pool@),
            forall|q: int| m <= q < maps.len() ==> #[trigger] maps@[q] == old(maps)@[q],
            battle_musics(maps@.take(m as int)) == last_files(drawn0, total_battles(old(maps)@.take(m as int))),
            music_vector_drawn(drawn0, old(maps)@, which, pool_len as int),
            pool.len() == pool_set(old(maps)@, which).len(),
            forall|p: (u16, u16)|
                #![trigger occurrences(drawn0, p)]
                (copies_drawn(pool_len as int, pool.len() as int) - 1) * occurrences(pool@, p) <= occurrences(drawn0, p)
                    <= copies_drawn(pool_len as int, pool.len() as int) * occurrences(pool@, p),
            total_battles(old(maps)@.take(m as int)) >= 0,
            drawn0.len() == pool_len,
        decreases maps.len() - m,
    {
        let ghost before = maps@;
        let ghost r_before = randomized@;
        proof {
            assert(old(maps)@.take(m + 1).drop_last() =~= old(maps)@.take(m as int));
            assert(old(maps)@.take(m + 1).last() == old(maps)@[m as int]);
            lemma_map_counts(old(maps)@, m + 1);
            let t = old(maps)@[m as int].stage_encounters@;
            lemma_table_counts(t, t.len() as int);
        }
        assign_tables_music(&mut maps[m].stage_encounters, &mut randomized);
        proof {
            let c = total_battles(old(maps)@.take(m as int));
            let n = battle_count(old(maps)@[m as int].stage_encounters@);
            lemma_map_counts(old(maps)@, m + 1);
            assert(total_battles(old(maps)@.take(m + 1)) == c + n);
            lemma_table_counts(old(maps)@[m as int].stage_encounters@, old(maps)@[m as int].stage_encounters.len() as int);
            lemma_last_files_split(drawn0, c, n);
            assert(drawn0.take(drawn0.len() - c) =~= r_before);
            assert(maps@.take(m + 1).drop_last() =~= maps@.take(m as int));
            assert(maps@.take(m as int) =~= before.take(m as int));
            assert(maps@.take(m + 1).last() == maps@[m as int]);
            assert(battle_musics(maps@.take(m + 1)) == battle_musics(maps@.take(m as int)) + table_musics(
                maps@[m as int].stage_encounters@,
            ));
            assert(total_battles(old(maps)@.take(m + 1)) == c + n);
        }
        proof {
            assert(randomized@ =~= drawn0.take(randomized.len() as int));
            assert forall|q: int|
                0 <= q < m + 1 implies map_field_redrawn(#[trigger] old(maps)@[q], maps@[q], BattleField::Music, pool@) by {
                if q < m {
                    assert(maps@[q] == before[q]);
                } else {
                    let a = old(maps)@[q];
                    let b = maps@[q];
                    assert forall|g: int| 0 <= g < a.stage_encounters.len() implies table_field_redrawn(
                        #[trigger] a.stage_encounters@[g], b.stage_encounters@[g], BattleField::Music, pool@) by {
                        assert(table_field_redrawn(a.stage_encounters@[g], b.stage_encounters@[g], BattleField::Music, r_before));
                        if a.stage_encounters@[g] is Some {
                            let ta = a.stage_encounters@[g]->0;
                            let tb = b.stage_encounters@[g]->0;
                            assert forall|k: int| 0 <= k < ta.modified.len() implies same_but_field(#[trigger] ta.modified@[k], tb.modified@[k], BattleField::Music)
                                && drawable(field_value(tb.modified@[k], BattleField::Music), BattleField::Music, pool@) by {
                                assert(same_but_field(ta.modified@[k], tb.modified@[k], BattleField::Music));
                                assert forall|i: int| 0 <= i < r_before.len() implies pool@.contains(#[trigger] r_before[i]) by {
                                    assert(r_before[i] == drawn0[i]);
                                }
                                lemma_drawable_from_pool(tb.modified@[k].music, r_before, pool@);
                            }
                        }
                    }
                }
            }
        }
        m += 1;
    }
    proof {
        assert(battles_redrawn(old(maps)@, maps@, BattleField::Music, pool@));
        assert(strategy == GroupStrategy::Ungrouped);
        assert(old(maps)@.take(m as int) =~= old(maps)@);
        assert(maps@.take(m as int) =~= maps@);
        pool@.lemma_multiset_has_no_duplicates();
        assert forall|k: int| 0 <= k < drawn0.len() implies in_music_pool(old(maps)@, which, #[trigger] drawn0[k]) by {
            assert(pool@.contains(drawn0[k]));
        }
        assert forall|p: (u16, u16)| in_music_pool(old(maps)@, which, p) implies {
            let copies = copies_drawn(total_tables(old(maps)@), pool_set(old(maps)@, which).len() as int);
            copies - 1 <= #[trigger] occurrences(drawn0, p) <= copies
        } by {
            assert(pool@.contains(p));
            assert(pool@.to_multiset().contains(p));
            assert(occurrences(pool@, p) == 1);
            let c = copies_drawn(pool_len as int, pool.len() as int);
            let o = occurrences(pool@, p);
            assert((c - 1) * o == c - 1 && c * o == c) by (nonlinear_arith)
                requires
                    o == 1,
            ;
            assert((c - 1) * o <= occurrences(drawn0, p) <= c * o);
        }
        assert(last_files(drawn0, total_battles(old(maps)@)) == battle_musics(maps@));
    }
    Ok(())
}

} // verus!
