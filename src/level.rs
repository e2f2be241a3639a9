//! The level data model: sprite manifests, placement maps, the join of the
//! two into resolved sprites and its inverse, and the id-interned file form of
//! a placement map.
use std::collections::HashMap;
use vstd::prelude::*;

verus! {

broadcast use vstd::std_specs::hash::group_hash_axioms;

/// An integer 2-vector: a tile position, or an offset within a tile.
#[derive(Clone, Copy, Debug, Default, PartialEq, Eq, Hash, Structural)]
pub struct IVec2 {
    pub x: i32,
    pub y: i32,
}

impl IVec2 {
    pub fn new(x: i32, y: i32) -> (r: IVec2)
        ensures
            r == (IVec2 { x, y }),
    {
        IVec2 { x, y }
    }
}

pub open spec fn strings_view(v: Seq<String>) -> Seq<Seq<char>> {
    v.map_values(|s: String| s@)
}

/// Copies a list of strings.
pub fn clone_strings(v: &Vec<String>) -> (r: Vec<String>)
    ensures
        strings_view(r@) == strings_view(v@),
{
    let mut r: Vec<String> = Vec::new();
    let mut i: usize = 0;
    while i < v.len()
        invariant
            i <= v.len(),
            strings_view(r@) == strings_view(v@.take(i as int)),
        decreases v.len() - i,
    {
        let ghost before = r@;
        r.push(v[i].clone());
        assert(r@ == before.push(v@[i as int]));
        assert(v@.take(i + 1) == v@.take(i as int).push(v@[i as int]));
        assert(strings_view(r@) =~= strings_view(before).push(v@[i as int]@));
        assert(strings_view(v@.take(i + 1)) =~= strings_view(v@.take(i as int)).push(v@[i as int]@));
        i = i + 1;
    }
    assert(v@.take(i as int) =~= v@);
    r
}

/// What a sprite definition stands for.
pub struct DefinitionModel {
    pub name: Seq<char>,
    pub offset: IVec2,
    pub texture: Seq<char>,
    pub attributes: Seq<Seq<char>>,
}

/// What a placement stands for.
pub struct PlacementModel {
    pub pos: IVec2,
    pub name: Seq<char>,
}

/// What a resolved sprite stands for.
pub struct ResolvedModel {
    pub name: Seq<char>,
    pub pos: IVec2,
    pub offset: IVec2,
    pub texture: Seq<char>,
    pub attributes: Seq<Seq<char>>,
}

/// A sprite definition of a level manifest.
#[derive(Clone, Debug, Default)]
pub struct LevelSpriteEntry {
    /// Sprite name and identifier.
    pub name: String,
    /// Sprite offset within its tile.
    pub offset: IVec2,
    /// Path of the sprite's texture.
    pub texture: String,
    /// The sprite's attribute expressions, not yet compiled.
    pub attributes: Vec<String>,
}

impl View for LevelSpriteEntry {
    type V = DefinitionModel;

    open spec fn view(&self) -> DefinitionModel {
        DefinitionModel {
            name: self.name@,
            offset: self.offset,
            texture: self.texture@,
            attributes: strings_view(self.attributes@),
        }
    }
}

/// The catalog of sprite definitions of one level.
#[derive(Clone, Debug)]
pub struct LevelManifest {
    /// Level name.
    pub name: String,
    /// Background music of the level.
    pub music: String,
    /// Sprites used in the level.
    pub sprites: Vec<LevelSpriteEntry>,
}

/// One placement of a placement map: which sprite stands on which tile.
#[derive(Clone, Debug)]
pub struct LevelMapSpriteEntry {
    /// Position in the level, in tiles.
    pub pos: IVec2,
    /// Sprite name, as defined in the level's manifest.
    pub name: String,
}

impl View for LevelMapSpriteEntry {
    type V = PlacementModel;

    open spec fn view(&self) -> PlacementModel {
        PlacementModel { pos: self.pos, name: self.name@ }
    }
}

impl LevelMapSpriteEntry {
    pub fn new(name: String, pos: IVec2) -> (r: LevelMapSpriteEntry)
        ensures
            r@ == (PlacementModel { pos, name: name@ }),
    {
        LevelMapSpriteEntry { name, pos }
    }
}

/// The placement map of one level.
#[derive(Clone, Debug)]
pub struct LevelMap {
    pub sprites: Vec<LevelMapSpriteEntry>,
}

pub open spec fn placements_view(v: Seq<LevelMapSpriteEntry>) -> Seq<PlacementModel> {
    v.map_values(|e: LevelMapSpriteEntry| e@)
}

pub open spec fn definitions_view(v: Seq<LevelSpriteEntry>) -> Seq<DefinitionModel> {
    v.map_values(|e: LevelSpriteEntry| e@)
}

impl View for LevelMap {
    type V = Seq<PlacementModel>;

    open spec fn view(&self) -> Seq<PlacementModel> {
        placements_view(self.sprites@)
    }
}

/// A placement joined with its definition, ready to be instantiated.
#[derive(Clone, Debug)]
pub struct HandledSprite {
    /// Sprite name and identifier.
    pub name: String,
    /// Position in the level.
    pub pos: IVec2,
    /// Sprite offset within its tile.
    pub offset: IVec2,
    /// Path of the sprite's texture.
    pub texture: String,
    /// The sprite's attribute expressions.
    pub attributes: Vec<String>,
}

impl View for HandledSprite {
    type V = ResolvedModel;

    open spec fn view(&self) -> ResolvedModel {
        ResolvedModel {
            name: self.name@,
            pos: self.pos,
            offset: self.offset,
            texture: self.texture@,
            attributes: strings_view(self.attributes@),
        }
    }
}

pub open spec fn resolved_view(v: Seq<HandledSprite>) -> Seq<ResolvedModel> {
    v.map_values(|e: HandledSprite| e@)
}

/// A level: its name, its music and its resolved sprites.
#[derive(Clone, Debug)]
pub struct Level {
    /// Level name.
    pub name: String,
    /// Music track of the level.
    pub music: String,
    /// Sprites of the level's map.
    pub sprites: Vec<HandledSprite>,
}

/// Why a level's files do not make a level.
#[derive(Clone, Debug, PartialEq, Eq)]
pub enum LevelError {
    /// A placement names a sprite that the manifest does not define.
    DanglingName(String),
    /// An entry of a placement file carries an id that its table lacks.
    DanglingId(u32),
}

/// The first index at or after `from` at which `names` holds `name`; -1 where
/// there is none.
pub open spec fn find_name(names: Seq<Seq<char>>, name: Seq<char>, from: int) -> int
    decreases names.len() - from,
{
    if from < 0 || from >= names.len() {
        -1
    } else if names[from] == name {
        from
    } else {
        find_name(names, name, from + 1)
    }
}

pub proof fn lemma_find_name(names: Seq<Seq<char>>, name: Seq<char>, from: int)
    requires
        0 <= from <= names.len(),
    ensures
        find_name(names, name, from) == -1 || from <= find_name(names, name, from) < names.len(),
        find_name(names, name, from) == -1 <==> forall|i: int|
            from <= i < names.len() ==> names[i] != name,
        find_name(names, name, from) >= 0 ==> names[find_name(names, name, from)] == name,
        forall|i: int| from <= i < find_name(names, name, from) ==> names[i] != name,
    decreases names.len() - from,
{
    if from < names.len() && names[from] != name {
        lemma_find_name(names, name, from + 1);
    }
}

pub open spec fn definition_names(d: Seq<DefinitionModel>) -> Seq<Seq<char>> {
    d.map_values(|x: DefinitionModel| x.name)
}

/// The definition that a name resolves to: the first one with that name.
pub open spec fn find_definition(d: Seq<DefinitionModel>, name: Seq<char>) -> int {
    find_name(definition_names(d), name, 0)
}

pub open spec fn resolve(p: PlacementModel, d: DefinitionModel) -> ResolvedModel {
    ResolvedModel {
        name: p.name,
        pos: p.pos,
        offset: d.offset,
        texture: d.texture,
        attributes: d.attributes,
    }
}

pub open spec fn all_resolve(p: Seq<PlacementModel>, d: Seq<DefinitionModel>) -> bool {
    forall|j: int| 0 <= j < p.len() ==> find_definition(d, #[trigger] p[j].name) >= 0
}

impl Default for LevelManifest {
    fn default() -> (r: LevelManifest)
        ensures
            r.name@ == Seq::<char>::empty(),
            r.music@ == Seq::<char>::empty(),
            r.sprites@ == Seq::<LevelSpriteEntry>::empty(),
    {
        LevelManifest { name: String::new(), music: String::new(), sprites: Vec::new() }
    }
}

impl Default for LevelMap {
    fn default() -> (r: LevelMap)
        ensures
            r@ == Seq::<PlacementModel>::empty(),
    {
        let r = LevelMap { sprites: Vec::new() };
        assert(r@ =~= Seq::<PlacementModel>::empty());
        r
    }
}

impl From<(LevelSpriteEntry, IVec2)> for HandledSprite {
    /// The sprite that a definition becomes when placed at `pos`.
    fn from(v: (LevelSpriteEntry, IVec2)) -> (r: HandledSprite) {
        let (entry, pos) = v;
        HandledSprite {
            name: entry.name,
            pos,
            offset: entry.offset,
            texture: entry.texture,
            attributes: entry.attributes,
        }
    }
}

impl vstd::std_specs::convert::FromSpecImpl<(LevelSpriteEntry, IVec2)> for HandledSprite {
    open spec fn obeys_from_spec() -> bool {
        true
    }

    open spec fn from_spec(v: (LevelSpriteEntry, IVec2)) -> HandledSprite {
        HandledSprite {
            name: v.0.name,
            pos: v.1,
            offset: v.0.offset,
            texture: v.0.texture,
            attributes: v.0.attributes,
        }
    }
}

impl From<(LevelManifest, Vec<HandledSprite>)> for Level {
    /// The level that a manifest's name and music make with resolved sprites.
    fn from(v: (LevelManifest, Vec<HandledSprite>)) -> (r: Level) {
        let (manifest, sprites) = v;
        Level { name: manifest.name, music: manifest.music, sprites }
    }
}

impl vstd::std_specs::convert::FromSpecImpl<(LevelManifest, Vec<HandledSprite>)> for Level {
    open spec fn obeys_from_spec() -> bool {
        true
    }

    open spec fn from_spec(v: (LevelManifest, Vec<HandledSprite>)) -> Level {
        Level { name: v.0.name, music: v.0.music, sprites: v.1 }
    }
}

/// Placement `j` is the first that no definition resolves.
pub open spec fn first_dangling(p: Seq<PlacementModel>, d: Seq<DefinitionModel>, j: int) -> bool {
    &&& 0 <= j < p.len()
    &&& find_definition(d, p[j].name) == -1
    &&& forall|k: int| 0 <= k < j ==> find_definition(d, #[trigger] p[k].name) >= 0
}

/// The join of placements with definitions, where every placement resolves.
pub open spec fn join_spec(p: Seq<PlacementModel>, d: Seq<DefinitionModel>) -> Seq<ResolvedModel> {
    Seq::new(p.len(), |j: int| resolve(p[j], d[find_definition(d, p[j].name)]))
}

/// The first definition in `defs` named `name`.
fn position_of_definition(defs: &Vec<LevelSpriteEntry>, name: &String) -> (r: Option<usize>)
    ensures
        match r {
            Some(i) => find_definition(definitions_view(defs@), name@) == i,
            None => find_definition(definitions_view(defs@), name@) == -1,
        },
{
    let ghost names = definition_names(definitions_view(defs@));
    let mut i: usize = 0;
    while i < defs.len()
        invariant
            i <= defs.len(),
            names == definition_names(definitions_view(defs@)),
            find_name(names, name@, 0) == find_name(names, name@, i as int),
        decreases defs.len() - i,
    {
        assert(names[i as int] == defs@[i as int].name@);
        if defs[i].name == *name {
            return Some(i);
        }
        i = i + 1;
    }
    None
}

pub open spec fn placement_of(r: ResolvedModel) -> PlacementModel {
    PlacementModel { pos: r.pos, name: r.name }
}

pub open spec fn definition_of(r: ResolvedModel) -> DefinitionModel {
    DefinitionModel { name: r.name, offset: r.offset, texture: r.texture, attributes: r.attributes }
}

/// The placements that resolved sprites stand at.
pub open spec fn decompose_placements(rs: Seq<ResolvedModel>) -> Seq<PlacementModel> {
    rs.map_values(|r: ResolvedModel| placement_of(r))
}

/// The definitions that resolved sprites carry: one per name, taken from the
/// first sprite of that name, in the order in which the names first appear.
pub open spec fn decompose_definitions(rs: Seq<ResolvedModel>) -> Seq<DefinitionModel>
    decreases rs.len(),
{
    if rs.len() == 0 {
        Seq::empty()
    } else {
        let d = decompose_definitions(rs.drop_last());
        if find_definition(d, rs.last().name) >= 0 {
            d
        } else {
            d.push(definition_of(rs.last()))
        }
    }
}

impl HandledSprite {
    /// Joins a level's placements with its sprite definitions; a name that
    /// several definitions share resolves to the first of them.
    pub fn join_level_definitions(map_sprites: Vec<LevelMapSpriteEntry>, entries: Vec<
        LevelSpriteEntry,
    >) -> (r: Result<Vec<HandledSprite>, LevelError>)
        ensures
            ({
                let p = placements_view(map_sprites@);
                let d = definitions_view(entries@);
                match r {
                    Ok(v) => all_resolve(p, d) && resolved_view(v@) == join_spec(p, d),
                    Err(LevelError::DanglingName(n)) => exists|j: int| #[trigger]
                        first_dangling(p, d, j) && n@ == p[j].name,
                    Err(LevelError::DanglingId(_)) => false,
                }
            }),
    {
        let ghost p = placements_view(map_sprites@);
        let ghost d = definitions_view(entries@);
        let mut result: Vec<HandledSprite> = Vec::new();
        let mut j: usize = 0;
        while j < map_sprites.len()
            invariant
                j <= map_sprites.len(),
                p == placements_view(map_sprites@),
                d == definitions_view(entries@),
                forall|k: int| 0 <= k < j ==> find_definition(d, #[trigger] p[k].name) >= 0,
                resolved_view(result@) == join_spec(p.take(j as int), d),
            decreases map_sprites.len() - j,
        {
            let placement = &map_sprites[j];
            assert(p[j as int] == placement@);
            match position_of_definition(&entries, &placement.name) {
                Some(i) => {
                    proof {
                        lemma_find_name(definition_names(d), placement.name@, 0);
                    }
                    let def = &entries[i];
                    assert(d[i as int] == def@);
                    let sprite = HandledSprite {
                        name: placement.name.clone(),
                        pos: placement.pos,
                        offset: def.offset,
                        texture: def.texture.clone(),
                        attributes: clone_strings(&def.attributes),
                    };
                    let ghost before = result@;
                    result.push(sprite);
                    assert(result@ == before.push(sprite));
                    assert(sprite@ == resolve(p[j as int], d[find_definition(d, p[j as int].name)]));
                    assert(resolved_view(result@) =~= resolved_view(before).push(sprite@));
                    assert(join_spec(p.take(j + 1), d) =~= join_spec(p.take(j as int), d).push(sprite@));
                },
                None => {
                    assert(first_dangling(p, d, j as int));
                    return Err(LevelError::DanglingName(placement.name.clone()));
                },
            }
            j = j + 1;
        }
        assert(p.take(j as int) =~= p);
        Ok(result)
    }

    /// Splits resolved sprites into the placements and the definitions that
    /// make them up; definitions that no sprite uses do not appear.
    pub fn decompose(list: Vec<Self>) -> (r: (Vec<LevelMapSpriteEntry>, Vec<LevelSpriteEntry>))
        ensures
            placements_view(r.0@) == decompose_placements(resolved_view(list@)),
            definitions_view(r.1@) == decompose_definitions(resolved_view(list@)),
    {
        let ghost rv = resolved_view(list@);
        let mut placements: Vec<LevelMapSpriteEntry> = Vec::new();
        let mut defs: Vec<LevelSpriteEntry> = Vec::new();
        let mut i: usize = 0;
        while i < list.len()
            invariant
                i <= list.len(),
                rv == resolved_view(list@),
                placements_view(placements@) == decompose_placements(rv.take(i as int)),
                definitions_view(defs@) == decompose_definitions(rv.take(i as int)),
            decreases list.len() - i,
        {
            let entry = &list[i];
            assert(rv[i as int] == entry@);
            assert(rv.take(i + 1).drop_last() =~= rv.take(i as int));
            assert(rv.take(i + 1).last() == entry@);
            if position_of_definition(&defs, &entry.name).is_none() {
                let def = LevelSpriteEntry {
                    name: entry.name.clone(),
                    offset: entry.offset,
                    texture: entry.texture.clone(),
                    attributes: clone_strings(&entry.attributes),
                };
                let ghost before = defs@;
                defs.push(def);
                assert(defs@ == before.push(def));
                assert(def@ == definition_of(entry@));
                assert(definitions_view(defs@) =~= definitions_view(before).push(def@));
            }
            let placement = LevelMapSpriteEntry { name: entry.name.clone(), pos: entry.pos };
            let ghost before = placements@;
            placements.push(placement);
            assert(placements@ == before.push(placement));
            assert(placements_view(placements@) =~= placements_view(before).push(placement@));
            assert(decompose_placements(rv.take(i + 1)) =~= decompose_placements(rv.take(i as int)).push(
                placement@,
            ));
            i = i + 1;
        }
        assert(rv.take(i as int) =~= rv);
        (placements, defs)
    }
}


/// One entry of a placement file: a position and the id of a sprite name.
#[derive(Clone, Copy, Debug, Default, PartialEq, Eq, Structural)]
pub struct LevelMapFileSpriteEntry {
    /// Position in the level, in tiles.
    pub pos: IVec2,
    /// Sprite id, as the file's table maps it.
    pub id: u32,
}

impl LevelMapFileSpriteEntry {
    pub fn new(id: u32, pos: IVec2) -> (r: LevelMapFileSpriteEntry)
        ensures
            r == (LevelMapFileSpriteEntry { pos, id }),
    {
        LevelMapFileSpriteEntry { pos, id }
    }
}

/// The file form of a placement map: each sprite name stands once, in a table
/// from ids to names, and the entries carry ids.
#[derive(Clone, Debug)]
pub struct LevelMapFile {
    /// Table of sprite ids to names.
    pub sprite_types: HashMap<u32, String>,
    /// The placements, by id.
    pub sprite_entries: Vec<LevelMapFileSpriteEntry>,
}

pub open spec fn table_view(m: Map<u32, String>) -> Map<u32, Seq<char>> {
    m.map_values(|s: String| s@)
}

/// The distinct names of placements, in the order in which they first appear.
pub open spec fn distinct_names(p: Seq<PlacementModel>) -> Seq<Seq<char>>
    decreases p.len(),
{
    if p.len() == 0 {
        Seq::empty()
    } else {
        let n = distinct_names(p.drop_last());
        if find_name(n, p.last().name, 0) >= 0 {
            n
        } else {
            n.push(p.last().name)
        }
    }
}

/// The table that gives the `i`-th name the id `i`.
pub open spec fn id_table(names: Seq<Seq<char>>) -> Map<u32, Seq<char>> {
    Map::new(|i: u32| (i as int) < names.len(), |i: u32| names[i as int])
}

/// The entries of the file form of placements `p`.
pub open spec fn encode_entries(p: Seq<PlacementModel>) -> Seq<LevelMapFileSpriteEntry> {
    Seq::new(
        p.len(),
        |j: int|
            LevelMapFileSpriteEntry {
                pos: p[j].pos,
                id: find_name(distinct_names(p), p[j].name, 0) as u32,
            },
    )
}

/// The placements that a table and entries stand for; `None` where an entry's
/// id is not in the table.
pub open spec fn decode_spec(table: Map<u32, Seq<char>>, entries: Seq<LevelMapFileSpriteEntry>) -> Option<
    Seq<PlacementModel>,
> {
    if forall|j: int| 0 <= j < entries.len() ==> table.contains_key(#[trigger] entries[j].id) {
        Some(
            Seq::new(
                entries.len(),
                |j: int| PlacementModel { pos: entries[j].pos, name: table[entries[j].id] },
            ),
        )
    } else {
        None
    }
}

/// Entry `j` is the first whose id the table lacks.
pub open spec fn first_missing_id(table: Map<u32, Seq<char>>, entries: Seq<LevelMapFileSpriteEntry>, j: int) -> bool {
    &&& 0 <= j < entries.len()
    &&& !table.contains_key(entries[j].id)
    &&& forall|k: int| 0 <= k < j ==> table.contains_key(#[trigger] entries[k].id)
}

/// Where `k` is the first index of `name`, it is what `find_name` gives.
pub proof fn lemma_find_name_at(names: Seq<Seq<char>>, name: Seq<char>, k: int)
    requires
        0 <= k < names.len(),
        names[k] == name,
        forall|i: int| 0 <= i < k ==> names[i] != name,
    ensures
        find_name(names, name, 0) == k,
{
    lemma_find_name(names, name, 0);
}

/// Appending to a sequence of names keeps where the names already in it are.
pub proof fn lemma_find_name_push(names: Seq<Seq<char>>, x: Seq<char>, name: Seq<char>)
    requires
        find_name(names, name, 0) >= 0,
    ensures
        find_name(names.push(x), name, 0) == find_name(names, name, 0),
{
    lemma_find_name(names, name, 0);
    let k = find_name(names, name, 0);
    let n2 = names.push(x);
    assert forall|i: int| 0 <= i < k implies n2[i] != name by {
        assert(n2[i] == names[i]);
    }
    lemma_find_name_at(n2, name, k);
}

pub proof fn lemma_distinct_names_len(p: Seq<PlacementModel>)
    ensures
        distinct_names(p).len() <= p.len(),
    decreases p.len(),
{
    if p.len() > 0 {
        lemma_distinct_names_len(p.drop_last());
    }
}

/// The first index of `name` in `names`.
fn position_of_name(names: &Vec<String>, name: &String) -> (r: Option<usize>)
    ensures
        match r {
            Some(i) => find_name(strings_view(names@), name@, 0) == i,
            None => find_name(strings_view(names@), name@, 0) == -1,
        },
{
    let ghost sv = strings_view(names@);
    let mut i: usize = 0;
    while i < names.len()
        invariant
            i <= names.len(),
            sv == strings_view(names@),
            find_name(sv, name@, 0) == find_name(sv, name@, i as int),
        decreases names.len() - i,
    {
        assert(sv[i as int] == names@[i as int]@);
        if names[i] == *name {
            return Some(i);
        }
        i = i + 1;
    }
    None
}

impl LevelMap {
    /// The file form of this map. Each distinct name gets an id, in the order
    /// in which the names first appear, from 0 up; each entry carries the id of
    /// its name.
    pub fn encode(&self) -> (r: LevelMapFile)
        requires
            self.sprites.len() <= u32::MAX,
        ensures
            table_view(r.sprite_types@) == id_table(distinct_names(self@)),
            r.sprite_entries@ == encode_entries(self@),
    {
        let ghost p = self@;
        let mut names: Vec<String> = Vec::new();
        let mut entries: Vec<LevelMapFileSpriteEntry> = Vec::new();
        let mut i: usize = 0;
        while i < self.sprites.len()
            invariant
                i <= self.sprites.len() <= u32::MAX,
                p == self@,
                strings_view(names@) == distinct_names(p.take(i as int)),
                entries@ == Seq::new(
                    i as nat,
                    |j: int|
                        LevelMapFileSpriteEntry {
                            pos: p[j].pos,
                            id: find_name(distinct_names(p.take(i as int)), p[j].name, 0) as u32,
                        },
                ),
                forall|j: int| 0 <= j < i ==> find_name(distinct_names(p.take(i as int)), #[trigger] p[j].name, 0) >= 0,
            decreases self.sprites.len() - i,
        {
            let sprite = &self.sprites[i];
            let ghost old_names = strings_view(names@);
            let ghost prefix = p.take(i + 1);
            assert(p[i as int] == sprite@);
            assert(prefix.drop_last() =~= p.take(i as int));
            assert(prefix.last() == sprite@);
            proof {
                lemma_distinct_names_len(prefix);
                lemma_find_name(old_names, sprite.name@, 0);
            }
            let id: usize = match position_of_name(&names, &sprite.name) {
                Some(k) => k,
                None => {
                    let ghost before = names@;
                    names.push(sprite.name.clone());
                    assert(strings_view(names@) =~= old_names.push(sprite.name@));
                    proof {
                        lemma_find_name(old_names, sprite.name@, 0);
                        assert forall|k: int| 0 <= k < old_names.len() implies strings_view(names@)[k]
                            != sprite.name@ by {
                            assert(strings_view(names@)[k] == old_names[k]);
                        }
                        lemma_find_name_at(strings_view(names@), sprite.name@, old_names.len() as int);
                    }
                    names.len() - 1
                },
            };
            proof {
                let new_names = distinct_names(prefix);
                assert forall|j: int| 0 <= j < i implies find_name(new_names, #[trigger] p[j].name, 0)
                    == find_name(distinct_names(p.take(i as int)), p[j].name, 0) && find_name(new_names, p[j].name, 0) >= 0 by {
                    if new_names != old_names {
                        lemma_find_name_push(old_names, sprite.name@, p[j].name);
                    }
                }
                assert(find_name(new_names, p[i as int].name, 0) == id);
            }
            let ghost old_entries = entries@;
            entries.push(LevelMapFileSpriteEntry { pos: sprite.pos, id: id as u32 });
            assert(entries@ =~= Seq::new(
                (i + 1) as nat,
                |j: int|
                    LevelMapFileSpriteEntry {
                        pos: p[j].pos,
                        id: find_name(distinct_names(prefix), p[j].name, 0) as u32,
                    },
            ));
            i = i + 1;
        }
        assert(p.take(i as int) =~= p);
        proof {
            lemma_distinct_names_len(p);
        }
        let mut table: HashMap<u32, String> = HashMap::new();
        assert(table_view(table@) =~= id_table(strings_view(names@).take(0)));
        let mut k: usize = 0;
        let ghost names_view = strings_view(names@);
        while k < names.len()
            invariant
                k <= names.len() <= u32::MAX,
                names_view == strings_view(names@),
                table_view(table@) == id_table(names_view.take(k as int)),
            decreases names.len() - k,
        {
            let ghost old_table = table@;
            let s = names[k].clone();
            table.insert(k as u32, s);
            assert(table@ == old_table.insert(k as u32, s));
            assert(names_view[k as int] == s@);
            assert(table_view(table@) =~= table_view(old_table).insert(k as u32, s@));
            assert(id_table(names_view.take(k + 1)) =~= id_table(names_view.take(k as int)).insert(
                k as u32,
                s@,
            ));
            assert(table_view(table@) =~= id_table(names_view.take(k + 1)));
            k = k + 1;
        }
        assert(names_view.take(k as int) =~= names_view);
        LevelMapFile { sprite_types: table, sprite_entries: entries }
    }
}

impl LevelMapFile {
    /// The placement map this file stands for; fails on the first entry whose
    /// id the table lacks.
    pub fn decode(&self) -> (r: Result<LevelMap, LevelError>)
        ensures
            ({
                let table = table_view(self.sprite_types@);
                let entries = self.sprite_entries@;
                match r {
                    Ok(m) => decode_spec(table, entries) == Some(m@),
                    Err(LevelError::DanglingId(id)) => decode_spec(table, entries) is None
                        && exists|j: int| #[trigger] first_missing_id(table, entries, j)
                        && entries[j].id == id,
                    Err(LevelError::DanglingName(_)) => false,
                }
            }),
    {
        let ghost table = table_view(self.sprite_types@);
        let ghost entries = self.sprite_entries@;
        let mut sprites: Vec<LevelMapSpriteEntry> = Vec::new();
        let mut j: usize = 0;
        while j < self.sprite_entries.len()
            invariant
                j <= self.sprite_entries.len(),
                table == table_view(self.sprite_types@),
                entries == self.sprite_entries@,
                forall|k: int| 0 <= k < j ==> table.contains_key(#[trigger] entries[k].id),
                placements_view(sprites@) == Seq::new(
                    j as nat,
                    |k: int| PlacementModel { pos: entries[k].pos, name: table[entries[k].id] },
                ),
            decreases self.sprite_entries.len() - j,
        {
            let e = self.sprite_entries[j];
            match self.sprite_types.get(&e.id) {
                Some(name) => {
                    assert(self.sprite_types@.contains_key(e.id));
                    assert(self.sprite_types@[e.id] == *name);
                    assert(table[e.id] == name@);
                    let placement = LevelMapSpriteEntry { pos: e.pos, name: name.clone() };
                    let ghost before = sprites@;
                    sprites.push(placement);
                    assert(sprites@ == before.push(placement));
                    assert(entries[j as int] == e);
                    assert(placements_view(sprites@) =~= placements_view(before).push(placement@));
                    assert(placements_view(sprites@) =~= Seq::new(
                        (j + 1) as nat,
                        |k: int| PlacementModel { pos: entries[k].pos, name: table[entries[k].id] },
                    ));
                },
                None => {
                    assert(first_missing_id(table, entries, j as int));
                    return Err(LevelError::DanglingId(e.id));
                },
            }
            j = j + 1;
        }
        let m = LevelMap { sprites };
        assert(m@ =~= decode_spec(table, entries)->0);
        Ok(m)
    }
}


/// Every name of the placements has an id.
pub proof fn lemma_distinct_names_cover(p: Seq<PlacementModel>)
    ensures
        forall|j: int| 0 <= j < p.len() ==> find_name(distinct_names(p), #[trigger] p[j].name, 0) >= 0,
    decreases p.len(),
{
    if p.len() > 0 {
        let q = p.drop_last();
        lemma_distinct_names_cover(q);
        let n = distinct_names(q);
        lemma_find_name(n, p.last().name, 0);
        assert forall|j: int| 0 <= j < p.len() implies find_name(distinct_names(p), #[trigger] p[j].name, 0)
            >= 0 by {
            if j < p.len() - 1 {
                assert(p[j] == q[j]);
                if find_name(n, p.last().name, 0) < 0 {
                    lemma_find_name_push(n, p.last().name, p[j].name);
                }
            } else if find_name(n, p.last().name, 0) < 0 {
                let n2 = n.push(p.last().name);
                assert forall|i: int| 0 <= i < n.len() implies n2[i] != p.last().name by {
                    assert(n2[i] == n[i]);
                }
                lemma_find_name_at(n2, p.last().name, n.len() as int);
            }
        }
    }
}

/// Decoding the file form of a placement map gives back the same placements,
/// in the same order.
pub proof fn law_decode_encode(p: Seq<PlacementModel>)
    requires
        p.len() <= u32::MAX,
    ensures
        decode_spec(id_table(distinct_names(p)), encode_entries(p)) == Some(p),
{
    let names = distinct_names(p);
    let table = id_table(names);
    let entries = encode_entries(p);
    lemma_distinct_names_cover(p);
    lemma_distinct_names_len(p);
    assert forall|j: int| 0 <= j < entries.len() implies table.contains_key(#[trigger] entries[j].id) && table[entries[j].id] == p[j].name by {
        lemma_find_name(names, p[j].name, 0);
        let k = find_name(names, p[j].name, 0);
        assert(entries[j].id == k as u32);
        assert((k as u32) as int == k);
    }
    assert(decode_spec(table, entries)->0 =~= p);
}

/// No two definitions share a name.
pub open spec fn unique_names(d: Seq<DefinitionModel>) -> bool {
    forall|i: int, k: int|
        0 <= i < d.len() && 0 <= k < d.len() && (#[trigger] d[i]).name == (#[trigger] d[k]).name
            ==> i == k
}

/// Sprites of one name carry one definition.
pub open spec fn consistent_definitions(rs: Seq<ResolvedModel>) -> bool {
    forall|j: int, k: int|
        0 <= j < rs.len() && 0 <= k < rs.len() && (#[trigger] rs[j]).name == (#[trigger] rs[k]).name
            ==> definition_of(rs[j]) == definition_of(rs[k])
}

/// Where sprites of one name carry one definition, the definitions taken
/// from them are those of the sprites.
pub proof fn lemma_decompose_definitions_set(rs: Seq<ResolvedModel>)
    requires
        consistent_definitions(rs),
    ensures
        forall|x: DefinitionModel|
            decompose_definitions(rs).contains(x) <==> exists|j: int|
                0 <= j < rs.len() && x == definition_of(#[trigger] rs[j]),
    decreases rs.len(),
{
    if rs.len() > 0 {
        let q = rs.drop_last();
        assert forall|j: int, k: int|
            0 <= j < q.len() && 0 <= k < q.len() && (#[trigger] q[j]).name == (#[trigger] q[k]).name
            implies definition_of(q[j]) == definition_of(q[k]) by {
            assert(q[j] == rs[j] && q[k] == rs[k]);
        }
        lemma_decompose_definitions_set(q);
        let d = decompose_definitions(q);
        let last = rs.last();
        let f = find_definition(d, last.name);
        lemma_find_name(definition_names(d), last.name, 0);
        assert forall|x: DefinitionModel|
            decompose_definitions(rs).contains(x) implies exists|j: int|
                0 <= j < rs.len() && x == definition_of(#[trigger] rs[j]) by {
            if d.contains(x) {
                let j = choose|j: int| 0 <= j < q.len() && x == definition_of(#[trigger] q[j]);
                assert(rs[j] == q[j]);
            } else {
                assert(x == definition_of(rs[rs.len() - 1]));
            }
        }
        assert forall|x: DefinitionModel|
            (exists|j: int| 0 <= j < rs.len() && x == definition_of(#[trigger] rs[j])) implies decompose_definitions(rs).contains(x) by {
            let j = choose|j: int| 0 <= j < rs.len() && x == definition_of(#[trigger] rs[j]);
            if j < rs.len() - 1 {
                assert(rs[j] == q[j]);
                assert(x == definition_of(q[j]));
                assert(d.contains(x));
                let i = choose|i: int| 0 <= i < d.len() && d[i] == x;
                if f < 0 {
                    assert(d.push(definition_of(last))[i] == x);
                }
            } else if f >= 0 {
                assert(definition_names(d)[f] == d[f].name);
                let y = d[f];
                assert(d.contains(y));
                let j2 = choose|j2: int| 0 <= j2 < q.len() && y == definition_of(#[trigger] q[j2]);
                assert(rs[j2] == q[j2]);
                assert(rs[j2].name == last.name);
                assert(definition_of(rs[j2]) == definition_of(rs[rs.len() - 1]));
            } else {
                assert(d.push(definition_of(last))[d.len() as int] == x);
            }
        }
    }
}

/// For a manifest without duplicate names and placements that all resolve,
/// decomposing the join gives back the placements, and as definitions exactly
/// those of the manifest that some placement uses.
pub proof fn law_decompose_join(p: Seq<PlacementModel>, d: Seq<DefinitionModel>)
    requires
        unique_names(d),
        all_resolve(p, d),
    ensures
        decompose_placements(join_spec(p, d)) == p,
        forall|x: DefinitionModel|
            decompose_definitions(join_spec(p, d)).contains(x) <==> exists|i: int|
                0 <= i < d.len() && d[i] == x && exists|j: int|
                    0 <= j < p.len() && (#[trigger] p[j]).name == (#[trigger] d[i]).name,
{
    let rs = join_spec(p, d);
    assert forall|j: int| 0 <= j < p.len() implies definition_of(#[trigger] rs[j]) == d[find_definition(d, p[j].name)]
        && d[find_definition(d, p[j].name)].name == p[j].name by {
        lemma_find_name(definition_names(d), p[j].name, 0);
        let f = find_definition(d, p[j].name);
        assert(definition_names(d)[f] == d[f].name);
    }
    assert(decompose_placements(rs) =~= p);
    assert(consistent_definitions(rs)) by {
        assert forall|j: int, k: int|
            0 <= j < rs.len() && 0 <= k < rs.len() && (#[trigger] rs[j]).name == (#[trigger] rs[k]).name
            implies definition_of(rs[j]) == definition_of(rs[k]) by {
            assert(rs[j].name == p[j].name && rs[k].name == p[k].name);
        }
    }
    lemma_decompose_definitions_set(rs);
    assert forall|x: DefinitionModel|
        decompose_definitions(rs).contains(x) <==> exists|i: int|
            0 <= i < d.len() && d[i] == x && exists|j: int|
                0 <= j < p.len() && (#[trigger] p[j]).name == (#[trigger] d[i]).name by {
        if decompose_definitions(rs).contains(x) {
            let j = choose|j: int| 0 <= j < rs.len() && x == definition_of(#[trigger] rs[j]);
            lemma_find_name(definition_names(d), p[j].name, 0);
            let f = find_definition(d, p[j].name);
            assert(0 <= f < d.len());
            assert(d[f] == x && p[j].name == d[f].name);
        }
        if exists|i: int|
            0 <= i < d.len() && d[i] == x && exists|j: int|
                0 <= j < p.len() && (#[trigger] p[j]).name == (#[trigger] d[i]).name {
            let i = choose|i: int|
                0 <= i < d.len() && d[i] == x && exists|j: int|
                    0 <= j < p.len() && (#[trigger] p[j]).name == (#[trigger] d[i]).name;
            let j = choose|j: int| 0 <= j < p.len() && (#[trigger] p[j]).name == d[i].name;
            lemma_find_name(definition_names(d), p[j].name, 0);
            let f = find_definition(d, p[j].name);
            assert(0 <= f < d.len());
            assert(d[f].name == d[i].name);
            assert(f == i);
            assert(x == definition_of(rs[j]));
        }
    }
}


/// Prepares a level from its manifest and its placement map by joining the
/// two; fails where a placement names no definition of the manifest.
pub fn prepare_level_from_manifests(manifest: LevelManifest, map: LevelMap) -> (r: Result<
    Level,
    LevelError,
>)
    ensures
        ({
            let p = map@;
            let d = definitions_view(manifest.sprites@);
            match r {
                Ok(level) => all_resolve(p, d) && level.name@ == manifest.name@ && level.music@
                    == manifest.music@ && resolved_view(level.sprites@) == join_spec(p, d),
                Err(LevelError::DanglingName(n)) => exists|j: int| #[trigger]
                    first_dangling(p, d, j) && n@ == p[j].name,
                Err(LevelError::DanglingId(_)) => false,
            }
        }),
{
    let ghost p = map@;
    let ghost d = definitions_view(manifest.sprites@);
    match HandledSprite::join_level_definitions(map.sprites, manifest.sprites) {
        Ok(handled) => {
            assert(resolved_view(handled@) == join_spec(p, d));
            Ok(Level { name: manifest.name, music: manifest.music, sprites: handled })
        },
        Err(e) => Err(e),
    }
}

/// Why a level cannot be prepared for play or editing.
#[derive(Clone, Debug, PartialEq, Eq)]
pub enum PrepareError {
    /// The level has no manifest, and the editor is not open.
    MissingManifest,
    /// The level has no placement map, and the editor is not open.
    MissingMap,
    /// The manifest and the map do not join.
    Join(LevelError),
}

/// The placements of a map, or none where there is no map.
pub open spec fn placements_or_empty(map: Option<LevelMap>) -> Seq<PlacementModel> {
    match map {
        Some(m) => m@,
        None => Seq::empty(),
    }
}

/// The definitions of a manifest, or none where there is no manifest.
pub open spec fn definitions_or_empty(manifest: Option<LevelManifest>) -> Seq<DefinitionModel> {
    match manifest {
        Some(m) => definitions_view(m.sprites@),
        None => Seq::empty(),
    }
}

/// Prepares a level from the files found for it. In the editor a missing
/// manifest or map stands for an empty one; in play it is an error.
pub fn prepare_level(manifest: Option<LevelManifest>, map: Option<LevelMap>, in_edit_mode: bool) -> (r:
    Result<Level, PrepareError>)
    ensures
        manifest is None && !in_edit_mode ==> r == Err::<Level, _>(PrepareError::MissingManifest),
        manifest is Some && map is None && !in_edit_mode ==> r == Err::<Level, _>(
            PrepareError::MissingMap,
        ),
        (manifest is Some || in_edit_mode) && (map is Some || in_edit_mode) ==> {
            let p = placements_or_empty(map);
            let d = definitions_or_empty(manifest);
            match r {
                Ok(level) => all_resolve(p, d) && resolved_view(level.sprites@) == join_spec(p, d)
                    && match manifest {
                    Some(m) => level.name@ == m.name@ && level.music@ == m.music@,
                    None => level.name@.len() == 0 && level.music@.len() == 0,
                },
                Err(PrepareError::Join(LevelError::DanglingName(n))) => exists|j: int| #[trigger]
                    first_dangling(p, d, j) && n@ == p[j].name,
                _ => false,
            }
        },
{
    let ghost p = placements_or_empty(map);
    let ghost d = definitions_or_empty(manifest);
    let found_manifest = match manifest {
        Some(m) => m,
        None => {
            if !in_edit_mode {
                return Err(PrepareError::MissingManifest);
            }
            LevelManifest::default()
        },
    };
    let found_map = match map {
        Some(m) => m,
        None => {
            if !in_edit_mode {
                return Err(PrepareError::MissingMap);
            }
            LevelMap::default()
        },
    };
    assert(definitions_view(found_manifest.sprites@) =~= d);
    assert(found_map@ =~= p);
    match prepare_level_from_manifests(found_manifest, found_map) {
        Ok(level) => Ok(level),
        Err(e) => Err(PrepareError::Join(e)),
    }
}

impl Level {
    /// Splits the level into the manifest and the placement map that store it;
    /// the manifest keeps the definitions that some sprite uses.
    pub fn into_manifests(self) -> (r: (LevelManifest, LevelMap))
        ensures
            r.0.name@ == self.name@,
            r.0.music@ == self.music@,
            definitions_view(r.0.sprites@) == decompose_definitions(resolved_view(self.sprites@)),
            r.1@ == decompose_placements(resolved_view(self.sprites@)),
    {
        let (placements, definitions) = HandledSprite::decompose(self.sprites);
        let manifest = LevelManifest { name: self.name, music: self.music, sprites: definitions };
        (manifest, LevelMap { sprites: placements })
    }
}

} // verus!
