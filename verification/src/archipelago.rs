//! The options file that lets an Archipelago multiworld know the
//! randomized game: what every shop sells and what the item boxes hold.

use crate::entities::{box_items, boxes_fit, item_box_items, MapEntities};
use crate::structs::Shop;
use vstd::prelude::*;

verus! {

/// How much progression items are balanced between the worlds.
#[derive(Debug, Clone, Copy)]
pub struct ProgressionBalancing {
    pub random: i32,
    pub random_low: i32,
    pub random_high: i32,
    pub disabled: i32,
    pub normal: i32,
    pub extreme: i32,
}

impl Default for ProgressionBalancing {
    /// Normal balancing only.
    fn default() -> (r: Self)
        ensures
            r == (ProgressionBalancing { random: 0, random_low: 0, random_high: 0, disabled: 0, normal: 50, extreme: 0 }),
    {
        ProgressionBalancing { random: 0, random_low: 0, random_high: 0, disabled: 0, normal: 50, extreme: 0 }
    }
}

/// Which locations must be reachable.
#[derive(Debug, Clone, Copy)]
pub struct Accessibility {
    pub full: i32,
    pub minimal: i32,
}

impl Default for Accessibility {
    /// No weight on either.
    fn default() -> (r: Self)
        ensures
            r == (Accessibility { full: 0, minimal: 0 }),
    {
        Accessibility { full: 0, minimal: 0 }
    }
}

/// The game's own options.
#[derive(Debug, Clone)]
pub struct DigimonWorld2003Options {
    pub progression_balancing: ProgressionBalancing,
    pub accessibility: Accessibility,
    pub plando_items: Vec<String>,
    pub shops: Vec<Vec<u16>>,
    pub item_boxes: Vec<(String, Vec<u16>)>,
    pub local_items: Vec<String>,
    pub non_local_items: Vec<String>,
    pub start_inventory: Vec<(String, i32)>,
    pub start_hints: Vec<String>,
    pub start_location_hints: Vec<String>,
    pub exclude_locations: Vec<String>,
    pub priority_locations: Vec<String>,
    pub item_links: Vec<String>,
}

/// A player's options file.
#[derive(Debug, Clone)]
pub struct Options {
    pub name: String,
    pub description: String,
    pub game: String,
    pub options: DigimonWorld2003Options,
}

/// Why the options could not be made.
#[derive(Debug, Clone, Copy, PartialEq, Eq, Structural)]
pub enum ArchipelagoError {
    /// There is no shop to take the start of the item lists from.
    EmptyShops,
}

/// Where shop `s`'s items start in the item list: the distance of its
/// address from the first shop's, in two-byte items.
pub open spec fn list_start(shops: Seq<Shop>, s: int) -> int {
    (shops[s].items.value - shops[0].items.value) / 2
}

/// The shops' item lists lie within the list of all shop items.
pub open spec fn lists_fit(shops: Seq<Shop>, shop_items: Seq<u16>) -> bool {
    forall|s: int|
        0 <= s < shops.len() ==> {
            &&& (#[trigger] shops[s]).items.value >= shops[0].items.value
            &&& list_start(shops, s) + shops[s].item_count <= shop_items.len()
        }
}

/// The items every shop sells.
pub fn shop_lists(shops: &Vec<Shop>, shop_items: &Vec<u16>) -> (r: Result<Vec<Vec<u16>>, ArchipelagoError>)
    requires
        lists_fit(shops@, shop_items@),
    ensures
        r is Err <==> shops.len() == 0,
        r matches Ok(lists) ==> {
            &&& lists.len() == shops.len()
            &&& forall|s: int|
                0 <= s < shops.len() ==> (#[trigger] lists@[s])@ == shop_items@.subrange(
                    list_start(shops@, s),
                    list_start(shops@, s) + shops@[s].item_count,
                )
        },
{
    if shops.len() == 0 {
        return Err(ArchipelagoError::EmptyShops);
    }
    let ptr = shops[0].items;
    let mut lists: Vec<Vec<u16>> = Vec::new();
    let mut s: usize = 0;
    while s < shops.len()
        invariant
            s <= shops.len(),
            shops.len() > 0,
            ptr == shops@[0].items,
            lists_fit(shops@, shop_items@),
            lists.len() == s,
            forall|q: int|
                0 <= q < s ==> (#[trigger] lists@[q])@ == shop_items@.subrange(
                    list_start(shops@, q),
                    list_start(shops@, q) + shops@[q].item_count,
                ),
        decreases shops.len() - s,
    {
        let shop = shops[s];
        assert(shops@[s as int].items.value >= shops@[0].items.value);
        let i = ((shop.items.value - ptr.value) / 2) as usize;
        assert(i == list_start(shops@, s as int));
        assert(list_start(shops@, s as int) + shops@[s as int].item_count <= shop_items.len());
        let end = i + shop.item_count as usize;
        let mut list: Vec<u16> = Vec::new();
        let mut k: usize = i;
        while k < end
            invariant
                i <= k <= end <= shop_items.len(),
                list@ == shop_items@.subrange(i as int, k as int),
            decreases end - k,
        {
            list.push(shop_items[k]);
            k += 1;
            assert(list@ =~= shop_items@.subrange(i as int, k as int));
        }
        lists.push(list);
        s += 1;
    }
    Ok(lists)
}

/// A map as the options file reads it: its file name and its entities.
pub struct BoxMap {
    pub file_name: String,
    pub entities: Option<MapEntities>,
}

/// The items that the item boxes of a map give.
pub open spec fn map_box_items(m: BoxMap, sprites: Seq<u16>) -> Seq<u16> {
    match m.entities {
        Some(e) => box_items(e, sprites),
        None => Seq::empty(),
    }
}

/// Where the name first stands in the list, from `i` on, or -1.
pub open spec fn name_index(list: Seq<(Seq<char>, Seq<u16>)>, name: Seq<char>, i: int) -> int
    decreases list.len() - i,
{
    if i < 0 || i >= list.len() {
        -1
    } else if list[i].0 == name {
        i
    } else {
        name_index(list, name, i + 1)
    }
}

/// The list with the items under the name: they replace the items the
/// name had, or are added at the end.
pub open spec fn put_named(list: Seq<(Seq<char>, Seq<u16>)>, name: Seq<char>, items: Seq<u16>) -> Seq<(Seq<char>, Seq<u16>)> {
    let k = name_index(list, name, 0);
    if k >= 0 {
        list.update(k, (name, items))
    } else {
        list.push((name, items))
    }
}

/// The item boxes of the first `k` maps, by file name: the items of each
/// map that has some, a later map of the same name taking the place of an
/// earlier one.
pub open spec fn named_boxes(maps: Seq<BoxMap>, sprites: Seq<u16>, k: int) -> Seq<(Seq<char>, Seq<u16>)>
    decreases k,
{
    if k <= 0 {
        Seq::empty()
    } else {
        let rest = named_boxes(maps, sprites, k - 1);
        let items = map_box_items(maps[k - 1], sprites);
        if items.len() == 0 {
            rest
        } else {
            put_named(rest, maps[k - 1].file_name@, items)
        }
    }
}

/// The list as names and items.
pub open spec fn named_view(list: Seq<(String, Vec<u16>)>) -> Seq<(Seq<char>, Seq<u16>)> {
    list.map_values(|p: (String, Vec<u16>)| (p.0@, p.1@))
}

/// Every map's item boxes can be walked.
pub open spec fn maps_fit(maps: Seq<BoxMap>, sprites: Seq<u16>) -> bool {
    forall|m: int| 0 <= m < maps.len() && (#[trigger] maps[m]).entities is Some ==> boxes_fit(
        maps[m].entities->0,
        sprites,
    )
}

/// The index found is -1 or a place of the name.
proof fn lemma_name_index(list: Seq<(Seq<char>, Seq<u16>)>, name: Seq<char>, i: int)
    requires
        0 <= i,
    ensures
        name_index(list, name, i) == -1 || (i <= name_index(list, name, i) < list.len()
            && list[name_index(list, name, i)].0 == name),
    decreases list.len() - i,
{
    if i < list.len() && list[i].0 != name {
        lemma_name_index(list, name, i + 1);
    }
}

/// Where the name first stands in the list from `i` on.
fn find_name(list: &Vec<(String, Vec<u16>)>, name: &String) -> (r: Option<usize>)
    ensures
        match r {
            Some(k) => k < list.len() && k as int == name_index(named_view(list@), name@, 0),
            None => name_index(named_view(list@), name@, 0) == -1,
        },
{
    let mut i: usize = 0;
    while i < list.len()
        invariant
            i <= list.len(),
            name_index(named_view(list@), name@, 0) == name_index(named_view(list@), name@, i as int),
        decreases list.len() - i,
    {
        if list[i].0 == *name {
            return Some(i);
        }
        i += 1;
    }
    None
}

/// The items of the item boxes of every map that has some, by file name.
pub fn item_boxes_by_map(maps: &Vec<BoxMap>, sprites: &Vec<u16>) -> (list: Vec<(String, Vec<u16>)>)
    requires
        maps_fit(maps@, sprites@),
    ensures
        named_view(list@) == named_boxes(maps@, sprites@, maps.len() as int),
{
    let mut list: Vec<(String, Vec<u16>)> = Vec::new();
    let mut k: usize = 0;
    while k < maps.len()
        invariant
            k <= maps.len(),
            maps_fit(maps@, sprites@),
            named_view(list@) == named_boxes(maps@, sprites@, k as int),
        decreases maps.len() - k,
    {
        let m = &maps[k];
        let items = match &m.entities {
            Some(e) => {
                assert(maps@[k as int].entities is Some);
                item_box_items(e, sprites)
            },
            None => Vec::new(),
        };
        if items.len() > 0 {
            let ghost before = named_view(list@);
            proof {
                lemma_name_index(before, maps@[k as int].file_name@, 0);
            }
            match find_name(&list, &m.file_name) {
                Some(at) => {
                    list.set(at, (m.file_name.clone(), items));
                    assert(named_view(list@) =~= before.update(at as int, (maps@[k as int].file_name@, map_box_items(maps@[k as int], sprites@))));
                },
                None => {
                    list.push((m.file_name.clone(), items));
                    assert(named_view(list@) =~= before.push((maps@[k as int].file_name@, map_box_items(maps@[k as int], sprites@))));
                },
            }
        }
        k += 1;
    }
    list
}

/// The options file of the randomized game: every shop's items and the
/// items of the item boxes of every map that has some, with default
/// settings for the rest.
pub fn generate_archipelago_yaml(
    shops: &Vec<Shop>,
    shop_items: &Vec<u16>,
    maps: &Vec<BoxMap>,
    item_box_sprites: &Vec<u16>,
) -> (r: Result<Options, ArchipelagoError>)
    requires
        lists_fit(shops@, shop_items@),
        maps_fit(maps@, item_box_sprites@),
    ensures
        r is Err <==> shops.len() == 0,
        r matches Ok(o) ==> {
            &&& o.name@ == "Player"@
            &&& o.description@ == "Archipelago YAML created by Digimon World 3 Randomizer"@
            &&& o.game@ == "Digimon World 2003"@
            &&& o.options.progression_balancing == ProgressionBalancing {
                random: 0,
                random_low: 0,
                random_high: 0,
                disabled: 0,
                normal: 50,
                extreme: 0,
            }
            &&& o.options.accessibility == Accessibility { full: 0, minimal: 0 }
            &&& o.options.shops.len() == shops.len()
            &&& forall|s: int|
                0 <= s < shops.len() ==> (#[trigger] o.options.shops@[s])@ == shop_items@.subrange(
                    list_start(shops@, s),
                    list_start(shops@, s) + shops@[s].item_count,
                )
            &&& named_view(o.options.item_boxes@) == named_boxes(maps@, item_box_sprites@, maps.len() as int)
            &&& o.options.plando_items.len() == 0
            &&& o.options.local_items.len() == 0
            &&& o.options.non_local_items.len() == 0
            &&& o.options.start_inventory.len() == 0
            &&& o.options.start_hints.len() == 0
            &&& o.options.start_location_hints.len() == 0
            &&& o.options.exclude_locations.len() == 0
            &&& o.options.priority_locations.len() == 0
            &&& o.options.item_links.len() == 0
        },
{
    let shops = match shop_lists(shops, shop_items) {
        Ok(lists) => lists,
        Err(e) => return Err(e),
    };
    let item_boxes = item_boxes_by_map(maps, item_box_sprites);
    Ok(Options {
        name: String::from_str("Player"),
        description: String::from_str("Archipelago YAML created by Digimon World 3 Randomizer"),
        game: String::from_str("Digimon World 2003"),
        options: DigimonWorld2003Options {
            progression_balancing: ProgressionBalancing::default(),
            accessibility: Accessibility::default(),
            plando_items: Vec::new(),
            shops,
            item_boxes,
            local_items: Vec::new(),
            non_local_items: Vec::new(),
            start_inventory: Vec::new(),
            start_hints: Vec::new(),
            start_location_hints: Vec::new(),
            exclude_locations: Vec::new(),
            priority_locations: Vec::new(),
            item_links: Vec::new(),
        },
    })
}

} // verus!
