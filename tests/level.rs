use std::collections::HashMap;

use temple::level::{
    prepare_level, prepare_level_from_manifests, PrepareError, HandledSprite, IVec2, Level, LevelError, LevelManifest, LevelMap,
    LevelMapFile, LevelMapFileSpriteEntry, LevelMapSpriteEntry, LevelSpriteEntry,
};

fn def(name: &str, offset: (i32, i32), texture: &str, attrs: &[&str]) -> LevelSpriteEntry {
    LevelSpriteEntry {
        name: name.to_string(),
        offset: IVec2::new(offset.0, offset.1),
        texture: texture.to_string(),
        attributes: attrs.iter().map(|a| a.to_string()).collect(),
    }
}

fn place(name: &str, x: i32, y: i32) -> LevelMapSpriteEntry {
    LevelMapSpriteEntry::new(name.to_string(), IVec2::new(x, y))
}

fn pairs(map: &LevelMap) -> Vec<(i32, i32, String)> {
    map.sprites.iter().map(|e| (e.pos.x, e.pos.y, e.name.clone())).collect()
}

fn def_tuple(d: &LevelSpriteEntry) -> (String, i32, i32, String, Vec<String>) {
    (d.name.clone(), d.offset.x, d.offset.y, d.texture.clone(), d.attributes.clone())
}

#[test]
fn join_and_decompose_single_block() {
    let defs = vec![def("block", (0, 0), "block.png", &["solid"])];
    let placements = vec![place("block", 2, 3)];
    let joined = HandledSprite::join_level_definitions(placements, defs).unwrap();
    assert_eq!(joined.len(), 1);
    let s = &joined[0];
    assert_eq!(s.name, "block");
    assert_eq!((s.pos.x, s.pos.y), (2, 3));
    assert_eq!((s.offset.x, s.offset.y), (0, 0));
    assert_eq!(s.texture, "block.png");
    assert_eq!(s.attributes, vec!["solid".to_string()]);

    let (map, defs) = HandledSprite::decompose(joined);
    assert_eq!(pairs(&LevelMap { sprites: map }), vec![(2, 3, "block".to_string())]);
    assert_eq!(defs.len(), 1);
    assert_eq!(
        def_tuple(&defs[0]),
        ("block".to_string(), 0, 0, "block.png".to_string(), vec!["solid".to_string()])
    );
}

#[test]
fn join_fails_on_dangling_name() {
    let defs = vec![def("block", (0, 0), "block.png", &["solid"])];
    let placements = vec![place("block", 0, 0), place("ghost", 1, 0), place("other", 2, 0)];
    assert_eq!(
        HandledSprite::join_level_definitions(placements, defs).unwrap_err(),
        LevelError::DanglingName("ghost".to_string())
    );
    assert_eq!(
        HandledSprite::join_level_definitions(vec![place("x", 0, 0)], vec![]).unwrap_err(),
        LevelError::DanglingName("x".to_string())
    );
}

#[test]
fn join_takes_first_definition_of_a_name() {
    let defs = vec![def("a", (1, 1), "first.png", &[]), def("a", (2, 2), "second.png", &["solid"])];
    let joined = HandledSprite::join_level_definitions(vec![place("a", 5, 5)], defs).unwrap();
    assert_eq!(joined[0].texture, "first.png");
    assert_eq!((joined[0].offset.x, joined[0].offset.y), (1, 1));
}

#[test]
fn decompose_of_join_restores_map_and_used_definitions() {
    let defs = vec![
        def("block", (0, 0), "block.png", &["solid"]),
        def("spike", (0, -4), "spike.png", &["deadly", "solid"]),
        def("unused", (3, 3), "unused.png", &[]),
        def("flag", (1, 2), "flag.png", &["goal(0)"]),
    ];
    let placements = vec![
        place("spike", 1, 0),
        place("block", 0, 0),
        place("spike", 2, 0),
        place("flag", 9, 4),
        place("block", -3, 7),
    ];
    let joined = HandledSprite::join_level_definitions(placements.clone(), defs.clone()).unwrap();
    let (map, out_defs) = HandledSprite::decompose(joined);
    assert_eq!(pairs(&LevelMap { sprites: map }), pairs(&LevelMap { sprites: placements }));
    let got: Vec<_> = out_defs.iter().map(def_tuple).collect();
    let expected: Vec<_> = [&defs[1], &defs[0], &defs[3]].iter().map(|d| def_tuple(d)).collect();
    assert_eq!(got, expected);
}

#[test]
fn decompose_keeps_first_sprite_of_each_name() {
    let sprites = vec![
        HandledSprite::from((def("a", (1, 0), "a1.png", &[]), IVec2::new(0, 0))),
        HandledSprite::from((def("a", (2, 0), "a2.png", &["x"]), IVec2::new(1, 0))),
    ];
    let (map, defs) = HandledSprite::decompose(sprites);
    assert_eq!(map.len(), 2);
    assert_eq!(defs.len(), 1);
    assert_eq!(defs[0].texture, "a1.png");
}

#[test]
fn encode_assigns_ids_in_first_seen_order() {
    let map = LevelMap { sprites: vec![place("b", 0, 0), place("a", 1, 0), place("b", 2, 0), place("c", 3, 3)] };
    let file = map.encode();
    let mut table: Vec<(u32, String)> = file.sprite_types.iter().map(|(k, v)| (*k, v.clone())).collect();
    table.sort();
    assert_eq!(table, vec![(0, "b".to_string()), (1, "a".to_string()), (2, "c".to_string())]);
    let ids: Vec<u32> = file.sprite_entries.iter().map(|e| e.id).collect();
    assert_eq!(ids, vec![0, 1, 0, 2]);
    assert_eq!((file.sprite_entries[3].pos.x, file.sprite_entries[3].pos.y), (3, 3));
}

#[test]
fn decode_of_encode_is_identity() {
    let maps = vec![
        LevelMap { sprites: vec![] },
        LevelMap { sprites: vec![place("a", 0, 0)] },
        LevelMap { sprites: vec![place("a", 0, 0), place("b", -1, 5), place("a", 7, 7), place("c", 2, 2)] },
    ];
    for map in maps {
        let decoded = map.encode().decode().unwrap();
        assert_eq!(pairs(&decoded), pairs(&map));
    }
    let empty = LevelMap { sprites: vec![] }.encode();
    assert!(empty.sprite_types.is_empty());
    assert!(empty.sprite_entries.is_empty());
}

#[test]
fn decode_fails_on_missing_id() {
    let mut table = HashMap::new();
    table.insert(0u32, "a".to_string());
    let file = LevelMapFile {
        sprite_types: table,
        sprite_entries: vec![
            LevelMapFileSpriteEntry::new(0, IVec2::new(0, 0)),
            LevelMapFileSpriteEntry::new(7, IVec2::new(1, 0)),
            LevelMapFileSpriteEntry::new(9, IVec2::new(2, 0)),
        ],
    };
    assert_eq!(file.decode().unwrap_err(), LevelError::DanglingId(7));
}

#[test]
fn level_round_trip_through_manifests() {
    let manifest = LevelManifest {
        name: "test level".to_string(),
        music: "song.ogg".to_string(),
        sprites: vec![def("sprite", (0, 0), "", &["solid"]), def("spare", (0, 0), "s.png", &[])],
    };
    let map = LevelMap { sprites: vec![place("sprite", 0, 0)] };
    let level = prepare_level_from_manifests(manifest, map).unwrap();
    assert_eq!(level.name, "test level");
    assert_eq!(level.music, "song.ogg");
    assert_eq!(level.sprites.len(), 1);
    let (manifest, map) = level.into_manifests();
    assert_eq!(manifest.name, "test level");
    assert_eq!(manifest.music, "song.ogg");
    assert_eq!(manifest.sprites.len(), 1);
    assert_eq!(manifest.sprites[0].name, "sprite");
    assert_eq!(pairs(&map), vec![(0, 0, "sprite".to_string())]);
}

#[test]
fn level_from_parts_and_defaults() {
    let level = Level::from((LevelManifest::default(), vec![]));
    assert_eq!(level.name, "");
    assert!(level.sprites.is_empty());
    assert!(LevelMap::default().sprites.is_empty());
    let manifest = LevelManifest { name: "n".to_string(), music: "m".to_string(), sprites: vec![] };
    let err = prepare_level_from_manifests(manifest, LevelMap { sprites: vec![place("nope", 0, 0)] });
    assert_eq!(err.unwrap_err(), LevelError::DanglingName("nope".to_string()));
}

#[test]
fn prepare_level_forgives_missing_files_in_the_editor() {
    let manifest = LevelManifest {
        name: "lvl".to_string(),
        music: "m.ogg".to_string(),
        sprites: vec![def("block", (0, 0), "block.png", &["solid"])],
    };
    let map = LevelMap { sprites: vec![place("block", 4, 4)] };
    let level = prepare_level(Some(manifest.clone()), Some(map.clone()), false).unwrap();
    assert_eq!(level.name, "lvl");
    assert_eq!(level.sprites.len(), 1);

    assert_eq!(prepare_level(None, Some(map.clone()), false).unwrap_err(), PrepareError::MissingManifest);
    assert_eq!(prepare_level(Some(manifest.clone()), None, false).unwrap_err(), PrepareError::MissingMap);
    let empty = prepare_level(None, None, true).unwrap();
    assert_eq!(empty.name, "");
    assert!(empty.sprites.is_empty());
    let unplaced = prepare_level(Some(manifest), None, true).unwrap();
    assert_eq!(unplaced.music, "m.ogg");
    assert!(unplaced.sprites.is_empty());
    assert_eq!(
        prepare_level(None, Some(map), true).unwrap_err(),
        PrepareError::Join(LevelError::DanglingName("block".to_string()))
    );
}
