use dmw3_randomizer::json::GroupStrategy;
use dmw3_randomizer::maps::{
    backgrounds, battle_music, color, color_with_draws, ironmon_charisma, music, music_pool, random_fight_backgrounds,
    type_script_add_item, EncounterTable, MapColor, MapObject, MapsError, MusicPool, MusicSet,
    StageEncounter, FIGHT_BACKGROUND_COUNT,
};
use dmw3_randomizer::mobius::{
    build_mobius_state, random_mobius_desert, random_mobius_desert_helper, EnvOverride, Gate, Gates, MobiusError,
    MobiusState, Node, StageId, StageOverride, StageOverrides,
};
use rand_xoshiro::rand_core::SeedableRng;
use rand_xoshiro::Xoshiro256StarStar;
use std::collections::HashMap;

fn battle(team_id: u32, music: u32) -> StageEncounter {
    StageEncounter { team_id, stage: 3, music }
}

fn table(battles: Vec<StageEncounter>) -> Option<EncounterTable> {
    Some(EncounterTable { original: battles.clone(), modified: battles })
}

fn map(bg: u16, music: Vec<MusicSet>, tables: Vec<Option<EncounterTable>>) -> MapObject {
    MapObject {
        background_original: bg,
        background_modified: bg,
        color: Some(MapColor { red: 1, green: 2, blue: 3 }),
        music_original: music.clone(),
        music_modified: music,
        stage_encounters: tables,
    }
}

fn set(sep_track: u16, sep_file: u16) -> MusicSet {
    MusicSet { sep_track, sep_file }
}

fn sample_maps() -> Vec<MapObject> {
    // battle music 0x0008_0000: sound file 8, track 2
    vec![
        map(4, vec![set(3, 10)], vec![table(vec![battle(5, 0x0008_0000), battle(0, 0x00ff_0000)]), None]),
        map(9, vec![set(1, 10)], vec![table(vec![battle(5, 0x0008_0000), battle(6, 0x0008_0000)])]),
    ]
}

#[test]
fn script_add_item_range() {
    assert!(type_script_add_item(0x80));
    assert!(type_script_add_item(0x8e));
    assert!(!type_script_add_item(0x8f));
    assert!(!type_script_add_item(0x7f));
    assert!(!type_script_add_item(0));
}

#[test]
fn ironmon_charisma_all_ones() {
    let mut reqs: Vec<u16> = vec![1, 150, 210];
    ironmon_charisma(&mut reqs);
    assert_eq!(reqs, vec![1u16; 15]);
}

#[test]
fn color_keeps_everything_else() {
    let mut maps = sample_maps();
    maps[1].color = None;
    let mut rng = Xoshiro256StarStar::seed_from_u64(4);
    color(&mut maps, &mut rng);
    assert!(maps[0].color.is_some());
    assert!(maps[1].color.is_none());
    assert_eq!(maps[0].background_modified, 4);
    assert_eq!(maps[1].music_modified, vec![set(1, 10)]);
}

#[test]
fn color_with_given_draws() {
    let mut maps = sample_maps();
    maps.insert(1, map(2, vec![], vec![]));
    maps[1].color = None;
    color_with_draws(&mut maps, &vec![261, 7, 300, 1, 2, 3]);
    assert_eq!(maps[0].color, Some(MapColor { red: 5, green: 7, blue: 44 }));
    assert_eq!(maps[1].color, None);
    assert_eq!(maps[2].color, Some(MapColor { red: 1, green: 2, blue: 3 }));
    assert_eq!(maps[2].background_modified, 9);
}

#[test]
fn backgrounds_drawn_from_originals() {
    let mut maps = sample_maps();
    let mut rng = Xoshiro256StarStar::seed_from_u64(8);
    backgrounds(&mut maps, 5, &mut rng);
    let mut drawn: Vec<u16> = maps.iter().map(|m| m.background_modified).collect();
    drawn.sort();
    // two maps, two distinct backgrounds: each is used once
    assert_eq!(drawn, vec![4, 9]);
    assert_eq!(maps[0].background_original, 4);
}

#[test]
fn fight_backgrounds_grouped_by_party() {
    let mut maps = sample_maps();
    let mut rng = Xoshiro256StarStar::seed_from_u64(12);
    random_fight_backgrounds(&mut maps, GroupStrategy::Party, &mut rng);
    let mut seen: HashMap<u32, u32> = HashMap::new();
    for m in &maps {
        for t in m.stage_encounters.iter().flatten() {
            for b in &t.modified {
                assert!(b.stage < FIGHT_BACKGROUND_COUNT);
                let v = *seen.entry(b.team_id).or_insert(b.stage);
                assert_eq!(v, b.stage);
            }
            assert_eq!(t.original[0].stage, 3);
        }
    }
}

#[test]
fn fight_backgrounds_ungrouped_in_range() {
    let mut maps = sample_maps();
    let mut rng = Xoshiro256StarStar::seed_from_u64(13);
    random_fight_backgrounds(&mut maps, GroupStrategy::Ungrouped, &mut rng);
    for m in &maps {
        for t in m.stage_encounters.iter().flatten() {
            for (b, o) in t.modified.iter().zip(t.original.iter()) {
                assert!(b.stage < FIGHT_BACKGROUND_COUNT);
                assert_eq!(b.team_id, o.team_id);
                assert_eq!(b.music, o.music);
            }
        }
    }
}

#[test]
fn music_pool_by_kind() {
    let maps = sample_maps();
    assert_eq!(music_pool(&maps, MusicPool::Overworld), vec![(1, 10), (3, 10)]);
    assert_eq!(music_pool(&maps, MusicPool::Battle), vec![(2, 8)]);
    assert_eq!(music_pool(&maps, MusicPool::Both), vec![(1, 10), (2, 8), (3, 10)]);
}

#[test]
fn music_pool_from_number() {
    assert!(matches!(MusicPool::from(0u8), MusicPool::Overworld));
    assert!(matches!(MusicPool::from(1u8), MusicPool::Battle));
    assert!(matches!(MusicPool::from(2u8), MusicPool::Both));
}

#[test]
fn music_uses_each_piece_once() {
    let mut maps = sample_maps();
    let mut rng = Xoshiro256StarStar::seed_from_u64(21);
    assert_eq!(music(&mut maps, MusicPool::Overworld, 3, &mut rng), Ok(()));
    let mut drawn: Vec<(u16, u16)> = maps
        .iter()
        .flat_map(|m| m.music_modified.iter().map(|s| (s.sep_track, s.sep_file)))
        .collect();
    drawn.sort();
    assert_eq!(drawn, vec![(1, 10), (3, 10)]);
}

#[test]
fn music_missing_when_more_to_replace() {
    let mut maps = sample_maps();
    maps[1].music_modified.push(set(7, 7));
    let mut rng = Xoshiro256StarStar::seed_from_u64(21);
    assert_eq!(music(&mut maps, MusicPool::Overworld, 3, &mut rng), Err(MapsError::MissingMusic));
    assert_eq!(maps[1].music_modified, vec![set(1, 10), set(7, 7)]);
}

#[test]
fn battle_music_grouped_uses_pool_files() {
    let mut maps = sample_maps();
    let mut rng = Xoshiro256StarStar::seed_from_u64(30);
    assert_eq!(battle_music(&mut maps, MusicPool::Overworld, GroupStrategy::Party, 1, &mut rng), Ok(()));
    let mut seen: HashMap<u32, u32> = HashMap::new();
    for m in &maps {
        for t in m.stage_encounters.iter().flatten() {
            for b in &t.modified {
                assert!(b.music == 10 << 16);
                let v = *seen.entry(b.team_id).or_insert(b.music);
                assert_eq!(v, b.music);
            }
        }
    }
}

#[test]
fn battle_music_ungrouped_needs_enough_tables() {
    // two tables but four battles: not enough music is drawn
    let mut maps = sample_maps();
    let mut rng = Xoshiro256StarStar::seed_from_u64(31);
    let r = battle_music(&mut maps, MusicPool::Both, GroupStrategy::Ungrouped, 1, &mut rng);
    assert_eq!(r, Err(MapsError::MissingMusic));
    assert_eq!(maps[0].stage_encounters[0].as_ref().unwrap().modified[0].music, 0x0008_0000);
}

#[test]
fn battle_music_ungrouped_one_battle_per_table() {
    let mut maps = vec![
        map(1, vec![set(4, 40)], vec![table(vec![battle(1, 0)]), table(vec![battle(2, 0)])]),
    ];
    let mut rng = Xoshiro256StarStar::seed_from_u64(32);
    let r = battle_music(&mut maps, MusicPool::Overworld, GroupStrategy::Ungrouped, 1, &mut rng);
    assert_eq!(r, Ok(()));
    for t in maps[0].stage_encounters.iter().flatten() {
        assert_eq!(t.modified[0].music, 40 << 16);
    }
}

#[test]
fn battle_music_ungrouped_draws_each_piece_evenly() {
    // three pieces and three tables: each piece is drawn once, so the two
    // battles get two different pieces of the pool
    let maps = || {
        vec![
            map(1, vec![set(1, 10), set(2, 20), set(3, 30)], vec![table(vec![battle(1, 0)]), table(vec![]), None]),
            map(2, vec![], vec![table(vec![battle(2, 0)])]),
        ]
    };
    for seed in 40..60u64 {
        let mut m = maps();
        let mut rng = Xoshiro256StarStar::seed_from_u64(seed);
        let r = battle_music(&mut m, MusicPool::Overworld, GroupStrategy::Ungrouped, 2, &mut rng);
        assert_eq!(r, Ok(()));
        let a = m[0].stage_encounters[0].as_ref().unwrap().modified[0].music;
        let b = m[1].stage_encounters[0].as_ref().unwrap().modified[0].music;
        assert!([10u32 << 16, 20 << 16, 30 << 16].contains(&a));
        assert!([10u32 << 16, 20 << 16, 30 << 16].contains(&b));
        assert_ne!(a, b);
        assert_eq!(m[0].music_modified, maps()[0].music_modified);
    }
}

fn env(direction: u16, next: u16, var: i16) -> EnvOverride {
    EnvOverride { next_stage_direction: direction, next_stage_id: next, var1: var, var2: var }
}

fn four_exits(next: u16) -> Vec<EnvOverride> {
    vec![env(1, next, 0), env(3, next, 0), env(5, next, 0), env(7, next, 0)]
}

#[test]
fn gates_push_position_pop() {
    let mut g = Gates::new();
    let a = StageId { var1: 1, var2: 2 };
    let b = StageId { var1: 3, var2: 4 };
    g.push(5, a);
    g.push(5, b);
    g.push(3, a);
    assert_eq!(g.position(5, b), Some(1));
    assert_eq!(g.position(7, b), None);
    assert_eq!(g.pop(5), Some(b));
    assert_eq!(g.east, vec![a]);
    assert_eq!(g.north, vec![a]);
    assert_eq!(g.pop(1), None);
    g.remove_at(5, 0);
    assert!(g.east.is_empty());
}

#[test]
fn node_gates() {
    let id = StageId { var1: 1, var2: 1 };
    let mut n = Node::new(id);
    assert_eq!(n.get_empty(), vec![5, 7, 1, 3]);
    n.set_gate(7, Gate::Reserved);
    n.set_gate(9, Gate::To(StageId { var1: 2, var2: 2 }));
    assert_eq!(n.gate(7), Gate::Reserved);
    assert_eq!(n.gate(3), Gate::To(StageId { var1: 2, var2: 2 }));
    assert_eq!(n.get_empty(), vec![5, 1]);
}

#[test]
fn mobius_state_nodes() {
    let a = StageId { var1: 1, var2: 1 };
    let b = StageId { var1: 2, var2: 2 };
    let mut st = MobiusState::new();
    st.insert_node(Node::new(a));
    assert!(st.find_node(b).is_none());
    assert_eq!(st.find_index(a), Some(0));
    assert_eq!(st.set_node_gate(a, 5, Gate::Reserved), Ok(()));
    assert_eq!(st.find_node(a).unwrap().east, Gate::Reserved);
    assert_eq!(st.update_node(Node::new(b)), Err(MobiusError::MissingNode));
    assert!(!st.is_visited(a));
    st.visit(a);
    st.visit(a);
    assert!(st.is_visited(a));
    assert_eq!(st.visited, vec![a]);
}

#[test]
fn mobius_build_state() {
    let ov = StageOverrides {
        stage_overrides: vec![
            StageOverride { var1: 1, var2: 1 },
            StageOverride { var1: 0, var2: 0 },
            StageOverride { var1: 2, var2: 3 },
        ],
        environmental_overrides: vec![
            vec![env(5, 100, 0), env(3, 599, 0)],
            vec![env(5, 100, 0)],
            vec![env(5, 100, 0), env(7, 100, 0)],
        ],
    };
    let st = build_mobius_state(&ov, 599, 602);
    assert_eq!(st.nodes.len(), 2);
    assert_eq!(st.nodes[0].north, Gate::Reserved);
    assert_eq!(st.nodes[0].east, Gate::Empty);
    assert_eq!(st.gates.east, vec![StageId { var1: 1, var2: 1 }, StageId { var1: 2, var2: 3 }]);
    assert_eq!(st.gates.south, vec![StageId { var1: 2, var2: 3 }]);
    assert!(st.gates.north.is_empty());
    assert!(st.visited.is_empty());
}

#[test]
fn mobius_two_stages_connect() {
    let mut m1 = StageOverrides {
        stage_overrides: vec![StageOverride { var1: 1, var2: 1 }],
        environmental_overrides: vec![four_exits(100)],
    };
    let mut m2 = StageOverrides {
        stage_overrides: vec![StageOverride { var1: 2, var2: 2 }],
        environmental_overrides: vec![four_exits(100)],
    };
    let mut rng = Xoshiro256StarStar::seed_from_u64(40);
    assert_eq!(random_mobius_desert_helper(&mut m1, &mut m2, 3, &mut rng, 599, 602), Ok(()));
    for e in &m1.environmental_overrides[0] {
        assert_eq!((e.var1, e.var2), (2, 2));
    }
    for e in &m2.environmental_overrides[0] {
        assert_eq!((e.var1, e.var2), (1, 1));
    }
}

#[test]
fn mobius_kept_exit_untouched() {
    let mut exits = vec![env(1, 100, 0), env(5, 100, 0), env(7, 100, 0)];
    exits.push(env(3, 602, 9));
    let mut m1 = StageOverrides {
        stage_overrides: vec![StageOverride { var1: 1, var2: 1 }],
        environmental_overrides: vec![exits],
    };
    let mut m2 = StageOverrides {
        stage_overrides: vec![StageOverride { var1: 2, var2: 2 }],
        environmental_overrides: vec![four_exits(100)],
    };
    let mut rng = Xoshiro256StarStar::seed_from_u64(41);
    assert_eq!(random_mobius_desert_helper(&mut m1, &mut m2, 3, &mut rng, 599, 602), Ok(()));
    let e1 = &m1.environmental_overrides[0];
    assert_eq!((e1[3].var1, e1[3].var2), (9, 9));
    for e in &e1[0..3] {
        assert_eq!((e.var1, e.var2), (2, 2));
    }
    for e in &m2.environmental_overrides[0] {
        assert_eq!((e.var1, e.var2), (1, 1));
    }
}

#[test]
fn mobius_missing_entrance() {
    let mut m1 = StageOverrides {
        stage_overrides: vec![StageOverride { var1: 4, var2: 4 }],
        environmental_overrides: vec![four_exits(100)],
    };
    let mut m2 = StageOverrides {
        stage_overrides: vec![StageOverride { var1: 2, var2: 2 }],
        environmental_overrides: vec![four_exits(100)],
    };
    let mut rng = Xoshiro256StarStar::seed_from_u64(42);
    assert_eq!(
        random_mobius_desert_helper(&mut m1, &mut m2, 3, &mut rng, 599, 602),
        Err(MobiusError::MissingNode)
    );
}

#[test]
fn mobius_open_side_without_exit_fails() {
    // the entrance has no exit to the west, so walking west finds no gate
    let mut m1 = StageOverrides {
        stage_overrides: vec![StageOverride { var1: 1, var2: 1 }],
        environmental_overrides: vec![vec![env(3, 100, 0), env(5, 100, 0), env(7, 100, 0)]],
    };
    let mut m2 = StageOverrides {
        stage_overrides: vec![StageOverride { var1: 2, var2: 2 }],
        environmental_overrides: vec![four_exits(100)],
    };
    let mut rng = Xoshiro256StarStar::seed_from_u64(43);
    assert_eq!(
        random_mobius_desert_helper(&mut m1, &mut m2, 0, &mut rng, 599, 602),
        Err(MobiusError::MissingGate)
    );
}

fn one_stage(v: i16, next: u16) -> StageOverrides {
    StageOverrides {
        stage_overrides: vec![StageOverride { var1: v, var2: v }],
        environmental_overrides: vec![four_exits(next)],
    }
}

#[test]
fn mobius_desert_both_parts() {
    let mut first_1 = one_stage(1, 100);
    let mut first_2 = one_stage(2, 100);
    let mut second_1 = one_stage(1, 100);
    let mut second_2 = one_stage(3, 100);
    let mut rng = Xoshiro256StarStar::seed_from_u64(44);
    let r = random_mobius_desert(&mut first_1, &mut first_2, &mut second_1, &mut second_2, 2, &mut rng);
    assert_eq!(r, Ok(()));
    assert!(first_1.environmental_overrides[0].iter().all(|e| (e.var1, e.var2) == (2, 2)));
    assert!(first_2.environmental_overrides[0].iter().all(|e| (e.var1, e.var2) == (1, 1)));
    assert!(second_1.environmental_overrides[0].iter().all(|e| (e.var1, e.var2) == (3, 3)));
    assert!(second_2.environmental_overrides[0].iter().all(|e| (e.var1, e.var2) == (1, 1)));
}
