use vstd::prelude::*;

use crate::mode::{lowercase_of, mode_name, mode_of_lowercase, Mode};
use crate::text::{decimal, decimal_string};

verus! {

/// One value of the catalog file, reduced to what validation looks at.
///
/// `Null` stands for both an absent key and an explicit null.
#[derive(Debug)]
pub enum Field {
    Null,
    Bool(bool),
    Text(String),
    /// A number, with its value when it is an integer that fits in `u16`.
    Number(Option<u16>),
    /// An array or an object.
    Other,
}

/// One variant entry of a group, as read from the catalog file.
#[derive(Debug)]
pub struct RawVariant {
    pub id: Field,
    pub players: Field,
    pub mode: Field,
    pub gag: Field,
    pub nickname: Field,
    pub disabled: Field,
}

/// One group entry of the catalog file; `variants` is `None` when the entry
/// holds no list of variants.
#[derive(Debug)]
pub struct RawGroup {
    pub gid: Field,
    pub name: Field,
    pub variants: Option<Vec<RawVariant>>,
}

/// A map of the catalog. Its group is referred to by `gid`.
#[derive(Debug, Clone)]
pub struct GameMap {
    pub id: u16,
    pub gid: u16,
    pub nickname: String,
    pub mode: Mode,
    pub players: u16,
    pub is_gag: bool,
    pub disabled: bool,
}

/// A group of maps that are variants of one another; `variants` lists the
/// member map ids in file order.
#[derive(Debug)]
pub struct MapGroup {
    pub gid: u16,
    pub basename: String,
    pub variants: Vec<u16>,
}

/// All groups and maps, each in file order.
#[derive(Debug)]
pub struct Catalog {
    pub groups: Vec<MapGroup>,
    pub maps: Vec<GameMap>,
}

pub struct MapView {
    pub id: u16,
    pub gid: u16,
    pub nickname: Seq<char>,
    pub mode: Mode,
    pub players: u16,
    pub is_gag: bool,
    pub disabled: bool,
}

pub struct GroupView {
    pub gid: u16,
    pub basename: Seq<char>,
    pub variants: Seq<u16>,
}

pub struct CatalogView {
    pub groups: Seq<GroupView>,
    pub maps: Seq<MapView>,
}

impl View for GameMap {
    type V = MapView;

    open spec fn view(&self) -> MapView {
        MapView {
            id: self.id,
            gid: self.gid,
            nickname: self.nickname@,
            mode: self.mode,
            players: self.players,
            is_gag: self.is_gag,
            disabled: self.disabled,
        }
    }
}

impl View for MapGroup {
    type V = GroupView;

    open spec fn view(&self) -> GroupView {
        GroupView { gid: self.gid, basename: self.basename@, variants: self.variants@ }
    }
}

impl View for Catalog {
    type V = CatalogView;

    open spec fn view(&self) -> CatalogView {
        CatalogView {
            groups: self.groups@.map_values(|g: MapGroup| g@),
            maps: self.maps@.map_values(|m: GameMap| m@),
        }
    }
}

/// Which field of a group entry is wrong.
#[derive(Debug, PartialEq, Eq, Structural, Clone, Copy)]
pub enum GroupFault {
    GidNotU16,
    BadBasename,
    VariantsNotList,
    /// The list of variants is empty: every group needs at least one map.
    NoVariants,
    DuplicateGid(u16),
}

/// A group entry that cannot be loaded; `group` is its position in the file.
#[derive(Debug, PartialEq, Eq, Structural, Clone, Copy)]
pub struct GroupError {
    pub group: usize,
    pub fault: GroupFault,
}

/// Which field of a variant entry is wrong.
#[derive(Debug, PartialEq, Eq, Structural, Clone, Copy)]
pub enum MapFault {
    IdNotU16,
    PlayersNotU16,
    ModeNotText,
    UnknownMode,
    GagNotBool,
    BadNickname,
    DisabledNotBool,
    DuplicateId(u16),
}

/// A variant entry that cannot be loaded: the group it belongs to (by gid and
/// by position) and its position within that group.
#[derive(Debug, PartialEq, Eq, Structural, Clone, Copy)]
pub struct MapError {
    pub gid: u16,
    pub group: usize,
    pub variant: usize,
    pub fault: MapFault,
}

/// Why a catalog could not be built.
#[derive(Debug, PartialEq, Eq, Structural, Clone, Copy)]
pub enum CatalogError {
    NotAList,
    Group(GroupError),
    Variant(MapError),
}

pub open spec fn has_map(maps: Seq<MapView>, id: u16) -> bool {
    exists|i: int| 0 <= i < maps.len() && #[trigger] maps[i].id == id
}

/// Some map has id `id` and belongs to group `gid`.
pub open spec fn has_member(maps: Seq<MapView>, id: u16, gid: u16) -> bool {
    exists|i: int| 0 <= i < maps.len() && #[trigger] maps[i].id == id && maps[i].gid == gid
}

/// Group `gid` lists map id `id` among its variants.
pub open spec fn lists_map(groups: Seq<GroupView>, gid: u16, id: u16) -> bool {
    exists|g: int| 0 <= g < groups.len() && #[trigger] groups[g].gid == gid && groups[g].variants.contains(id)
}

pub open spec fn has_group(groups: Seq<GroupView>, gid: u16) -> bool {
    exists|i: int| 0 <= i < groups.len() && #[trigger] groups[i].gid == gid
}

/// A non-empty string field.
pub open spec fn nonempty_text(f: Field) -> Option<Seq<char>> {
    match f {
        Field::Text(s) => if s@.len() > 0 {
            Some(s@)
        } else {
            None
        },
        _ => None,
    }
}

/// A flag that defaults to false when absent.
pub open spec fn optional_flag(f: Field) -> Option<bool> {
    match f {
        Field::Null => Some(false),
        Field::Bool(b) => Some(b),
        _ => None,
    }
}

pub open spec fn variant_error(gid: u16, gi: int, vi: int, fault: MapFault) -> CatalogError {
    CatalogError::Variant(MapError { gid, group: gi as usize, variant: vi as usize, fault })
}

/// The map that a variant entry describes, or the first of its fields that is
/// wrong, checked in the order id, players, mode, gag, nickname, disabled.
pub open spec fn check_variant(gid: u16, gi: int, vi: int, basename: Seq<char>, v: RawVariant) -> Result<
    MapView,
    CatalogError,
> {
    match v.id {
        Field::Number(Some(id)) => match v.players {
            Field::Number(Some(players)) => match v.mode {
                Field::Text(ms) => match mode_of_lowercase(lowercase_of(ms@)) {
                    Some(mode) => match optional_flag(v.gag) {
                        Some(is_gag) => {
                            let nick = match v.nickname {
                                Field::Null => Some(basename),
                                f => nonempty_text(f),
                            };
                            match nick {
                                Some(nickname) => match optional_flag(v.disabled) {
                                    Some(disabled) => Ok(
                                        MapView { id, gid, nickname, mode, players, is_gag, disabled },
                                    ),
                                    None => Err(variant_error(gid, gi, vi, MapFault::DisabledNotBool)),
                                },
                                None => Err(variant_error(gid, gi, vi, MapFault::BadNickname)),
                            }
                        },
                        None => Err(variant_error(gid, gi, vi, MapFault::GagNotBool)),
                    },
                    None => Err(variant_error(gid, gi, vi, MapFault::UnknownMode)),
                },
                _ => Err(variant_error(gid, gi, vi, MapFault::ModeNotText)),
            },
            _ => Err(variant_error(gid, gi, vi, MapFault::PlayersNotU16)),
        },
        _ => Err(variant_error(gid, gi, vi, MapFault::IdNotU16)),
    }
}

/// The maps so far extended by the first `n` variants of a group, with their ids,
/// or the first error among them. A map id already present is an error.
pub open spec fn add_variants(
    maps: Seq<MapView>,
    gid: u16,
    gi: int,
    basename: Seq<char>,
    vs: Seq<RawVariant>,
    n: int,
) -> Result<(Seq<MapView>, Seq<u16>), CatalogError>
    decreases n,
{
    if n <= 0 {
        Ok((maps, seq![]))
    } else {
        match add_variants(maps, gid, gi, basename, vs, n - 1) {
            Err(e) => Err(e),
            Ok((ms, ids)) => match check_variant(gid, gi, n - 1, basename, vs[n - 1]) {
                Err(e) => Err(e),
                Ok(m) => if has_map(ms, m.id) {
                    Err(variant_error(gid, gi, n - 1, MapFault::DuplicateId(m.id)))
                } else {
                    Ok((ms.push(m), ids.push(m.id)))
                },
            },
        }
    }
}

pub open spec fn group_error(gi: int, fault: GroupFault) -> CatalogError {
    CatalogError::Group(GroupError { group: gi as usize, fault })
}

/// The catalog so far extended by group entry `g` at position `gi`.
pub open spec fn add_group(c: CatalogView, gi: int, g: RawGroup) -> Result<CatalogView, CatalogError> {
    match g.gid {
        Field::Number(Some(gid)) => match nonempty_text(g.name) {
            Some(basename) => match g.variants {
                Some(vs) => if vs@.len() == 0 {
                    Err(group_error(gi, GroupFault::NoVariants))
                } else {
                    match add_variants(c.maps, gid, gi, basename, vs@, vs@.len() as int) {
                        Err(e) => Err(e),
                        Ok((ms, ids)) => if has_group(c.groups, gid) {
                            Err(group_error(gi, GroupFault::DuplicateGid(gid)))
                        } else {
                            Ok(
                                CatalogView {
                                    groups: c.groups.push(GroupView { gid, basename, variants: ids }),
                                    maps: ms,
                                },
                            )
                        },
                    }
                },
                None => Err(group_error(gi, GroupFault::VariantsNotList)),
            },
            None => Err(group_error(gi, GroupFault::BadBasename)),
        },
        _ => Err(group_error(gi, GroupFault::GidNotU16)),
    }
}

/// The catalog described by the first `n` group entries, or the first error.
pub open spec fn load_groups(raw: Seq<RawGroup>, n: int) -> Result<CatalogView, CatalogError>
    decreases n,
{
    if n <= 0 {
        Ok(CatalogView { groups: seq![], maps: seq![] })
    } else {
        match load_groups(raw, n - 1) {
            Err(e) => Err(e),
            Ok(c) => add_group(c, n - 1, raw[n - 1]),
        }
    }
}

/// The catalog that a file describes: `None` is a file that is not a list.
pub open spec fn catalog_of(raw: Option<Vec<RawGroup>>) -> Result<CatalogView, CatalogError> {
    match raw {
        None => Err(CatalogError::NotAList),
        Some(gs) => load_groups(gs@, gs@.len() as int),
    }
}

impl CatalogView {
    /// Map ids are unique, group ids are unique, every map belongs to a group
    /// that lists it, every group lists at least one map, and every id that a
    /// group lists is a map of that group.
    pub open spec fn wf(self) -> bool {
        &&& forall|i: int, j: int|
            0 <= i < j < self.maps.len() ==> #[trigger] self.maps[i].id != #[trigger] self.maps[j].id
        &&& forall|i: int, j: int|
            0 <= i < j < self.groups.len() ==> #[trigger] self.groups[i].gid
                != #[trigger] self.groups[j].gid
        &&& forall|i: int| 0 <= i < self.maps.len() ==> has_group(self.groups, #[trigger] self.maps[i].gid)
        &&& forall|i: int|
            0 <= i < self.maps.len() ==> lists_map(self.groups, #[trigger] self.maps[i].gid, self.maps[i].id)
        &&& forall|g: int| 0 <= g < self.groups.len() ==> (#[trigger] self.groups[g]).variants.len() > 0
        &&& forall|g: int, k: int|
            0 <= g < self.groups.len() && 0 <= k < self.groups[g].variants.len() ==> has_member(
                self.maps,
                #[trigger] self.groups[g].variants[k],
                self.groups[g].gid,
            )
    }
}

impl Catalog {
    pub open spec fn wf(&self) -> bool {
        self@.wf()
    }
}

fn contains_map(maps: &Vec<GameMap>, id: u16) -> (r: bool)
    ensures
        r == has_map(maps@.map_values(|m: GameMap| m@), id),
{
    let ghost mv = maps@.map_values(|m: GameMap| m@);
    let mut i: usize = 0;
    while i < maps.len()
        invariant
            i <= maps.len(),
            mv == maps@.map_values(|m: GameMap| m@),
            forall|j: int| 0 <= j < i ==> mv[j].id != id,
        decreases maps.len() - i,
    {
        if maps[i].id == id {
            assert(mv[i as int].id == id);
            return true;
        }
        i = i + 1;
    }
    false
}

fn contains_group(groups: &Vec<MapGroup>, gid: u16) -> (r: bool)
    ensures
        r == has_group(groups@.map_values(|g: MapGroup| g@), gid),
{
    let ghost gv = groups@.map_values(|g: MapGroup| g@);
    let mut i: usize = 0;
    while i < groups.len()
        invariant
            i <= groups.len(),
            gv == groups@.map_values(|g: MapGroup| g@),
            forall|j: int| 0 <= j < i ==> gv[j].gid != gid,
        decreases groups.len() - i,
    {
        if groups[i].gid == gid {
            assert(gv[i as int].gid == gid);
            return true;
        }
        i = i + 1;
    }
    false
}

proof fn lemma_variants_error_sticks(
    maps: Seq<MapView>,
    gid: u16,
    gi: int,
    basename: Seq<char>,
    vs: Seq<RawVariant>,
    j: int,
    n: int,
    e: CatalogError,
)
    requires
        0 <= j < n,
        add_variants(maps, gid, gi, basename, vs, j + 1) == Err::<(Seq<MapView>, Seq<u16>), CatalogError>(e),
    ensures
        add_variants(maps, gid, gi, basename, vs, n) == Err::<(Seq<MapView>, Seq<u16>), CatalogError>(e),
    decreases n,
{
    if n > j + 1 {
        lemma_variants_error_sticks(maps, gid, gi, basename, vs, j, n - 1, e);
    }
}

proof fn lemma_groups_error_sticks(raw: Seq<RawGroup>, i: int, n: int, e: CatalogError)
    requires
        0 <= i < n,
        load_groups(raw, i + 1) == Err::<CatalogView, CatalogError>(e),
    ensures
        load_groups(raw, n) == Err::<CatalogView, CatalogError>(e),
    decreases n,
{
    if n > i + 1 {
        lemma_groups_error_sticks(raw, i, n - 1, e);
    }
}

fn variant_err(gid: u16, gi: usize, vi: usize, fault: MapFault) -> (r: CatalogError)
    ensures
        r == variant_error(gid, gi as int, vi as int, fault),
{
    CatalogError::Variant(MapError { gid, group: gi, variant: vi, fault })
}

fn read_flag(f: &Field) -> (r: Option<bool>)
    ensures
        r == optional_flag(*f),
{
    match f {
        Field::Null => Some(false),
        Field::Bool(b) => Some(*b),
        _ => None,
    }
}

/// The map that variant entry `vi` of group entry `gi` describes.
fn parse_variant(gid: u16, gi: usize, vi: usize, basename: &String, v: &RawVariant) -> (r: Result<
    GameMap,
    CatalogError,
>)
    ensures
        match check_variant(gid, gi as int, vi as int, basename@, *v) {
            Ok(mv) => r matches Ok(m) && m@ == mv,
            Err(e) => r == Err::<GameMap, CatalogError>(e),
        },
{
    let id = match &v.id {
        Field::Number(Some(id)) => *id,
        _ => return Err(variant_err(gid, gi, vi, MapFault::IdNotU16)),
    };
    let players = match &v.players {
        Field::Number(Some(p)) => *p,
        _ => return Err(variant_err(gid, gi, vi, MapFault::PlayersNotU16)),
    };
    let mode = match &v.mode {
        Field::Text(ms) => match Mode::from_name(ms.as_str()) {
            Ok(m) => m,
            Err(_) => return Err(variant_err(gid, gi, vi, MapFault::UnknownMode)),
        },
        _ => return Err(variant_err(gid, gi, vi, MapFault::ModeNotText)),
    };
    let is_gag = match read_flag(&v.gag) {
        Some(b) => b,
        None => return Err(variant_err(gid, gi, vi, MapFault::GagNotBool)),
    };
    let nickname = match &v.nickname {
        Field::Null => basename.clone(),
        Field::Text(s) => {
            if s.as_str().is_empty() {
                return Err(variant_err(gid, gi, vi, MapFault::BadNickname));
            }
            s.clone()
        },
        _ => return Err(variant_err(gid, gi, vi, MapFault::BadNickname)),
    };
    let disabled = match read_flag(&v.disabled) {
        Some(b) => b,
        None => return Err(variant_err(gid, gi, vi, MapFault::DisabledNotBool)),
    };
    Ok(GameMap { id, gid, nickname, mode, players, is_gag, disabled })
}

/// Builds the catalog from the entries of the catalog file, in file order.
///
/// `raw` is `None` when the file does not hold a list. The first entry that
/// cannot be loaded, checked group by group and within a group variant by
/// variant, decides the error; a repeated map id or group id is an error.
pub fn load_map_data(raw: &Option<Vec<RawGroup>>) -> (r: Result<Catalog, CatalogError>)
    ensures
        match catalog_of(*raw) {
            Ok(cv) => r matches Ok(c) && c@ == cv && c.wf(),
            Err(e) => r == Err::<Catalog, CatalogError>(e),
        },
{
    let gs = match raw {
        None => return Err(CatalogError::NotAList),
        Some(gs) => gs,
    };
    assert(catalog_of(*raw) == load_groups(gs@, gs@.len() as int));
    let mut groups: Vec<MapGroup> = Vec::new();
    let mut maps: Vec<GameMap> = Vec::new();
    let mut i: usize = 0;
    proof {
        assert(groups@.map_values(|g: MapGroup| g@) =~= Seq::<GroupView>::empty());
        assert(maps@.map_values(|m: GameMap| m@) =~= Seq::<MapView>::empty());
    }
    while i < gs.len()
        invariant
            i <= gs.len(),
            catalog_of(*raw) == load_groups(gs@, gs@.len() as int),
            load_groups(gs@, i as int) == Ok::<CatalogView, CatalogError>(
                CatalogView {
                    groups: groups@.map_values(|g: MapGroup| g@),
                    maps: maps@.map_values(|m: GameMap| m@),
                },
            ),
            forall|a: int, b: int|
                0 <= a < b < maps@.len() ==> #[trigger] maps@[a].id != #[trigger] maps@[b].id,
            forall|a: int, b: int|
                0 <= a < b < groups@.len() ==> #[trigger] groups@[a].gid != #[trigger] groups@[b].gid,
            forall|a: int|
                0 <= a < maps@.len() ==> has_group(groups@.map_values(|g: MapGroup| g@), #[trigger] maps@[a].gid),
            forall|a: int, k: int|
                0 <= a < groups@.len() && 0 <= k < groups@[a].variants@.len() ==> has_member(
                    maps@.map_values(|m: GameMap| m@),
                    #[trigger] groups@[a].variants@[k],
                    groups@[a].gid,
                ),
            forall|a: int|
                0 <= a < maps@.len() ==> lists_map(
                    groups@.map_values(|g: MapGroup| g@),
                    #[trigger] maps@[a].gid,
                    maps@[a].id,
                ),
            forall|a: int| 0 <= a < groups@.len() ==> (#[trigger] groups@[a]).variants@.len() > 0,
        decreases gs.len() - i,
    {
        let g = &gs[i];
        let ghost gv0 = groups@.map_values(|g: MapGroup| g@);
        let ghost mv0 = maps@.map_values(|m: GameMap| m@);
        let ghost c0 = CatalogView { groups: gv0, maps: mv0 };
        let gid = match &g.gid {
            Field::Number(Some(gid)) => *gid,
            _ => {
                proof {
                    lemma_groups_error_sticks(gs@, i as int, gs@.len() as int, group_error(i as int, GroupFault::GidNotU16));
                }
                return Err(CatalogError::Group(GroupError { group: i, fault: GroupFault::GidNotU16 }));
            },
        };
        let basename = match &g.name {
            Field::Text(s) => {
                if s.as_str().is_empty() {
                    proof {
                        lemma_groups_error_sticks(gs@, i as int, gs@.len() as int, group_error(i as int, GroupFault::BadBasename));
                    }
                    return Err(CatalogError::Group(GroupError { group: i, fault: GroupFault::BadBasename }));
                }
                s.clone()
            },
            _ => {
                proof {
                    lemma_groups_error_sticks(gs@, i as int, gs@.len() as int, group_error(i as int, GroupFault::BadBasename));
                }
                return Err(CatalogError::Group(GroupError { group: i, fault: GroupFault::BadBasename }));
            },
        };
        let vs = match &g.variants {
            Some(vs) => vs,
            None => {
                proof {
                    lemma_groups_error_sticks(gs@, i as int, gs@.len() as int, group_error(i as int, GroupFault::VariantsNotList));
                }
                return Err(CatalogError::Group(GroupError { group: i, fault: GroupFault::VariantsNotList }));
            },
        };
        if vs.len() == 0 {
            proof {
                lemma_groups_error_sticks(gs@, i as int, gs@.len() as int, group_error(i as int, GroupFault::NoVariants));
            }
            return Err(CatalogError::Group(GroupError { group: i, fault: GroupFault::NoVariants }));
        }
        let ghost n0 = maps@.len();
        let mut ids: Vec<u16> = Vec::new();
        let mut j: usize = 0;
        while j < vs.len()
            invariant
                i < gs.len(),
                g == gs@[i as int],
                g.gid == Field::Number(Some(gid)),
                nonempty_text(g.name) == Some(basename@),
                c0 == (CatalogView { groups: gv0, maps: mv0 }),
                load_groups(gs@, i as int) == Ok::<CatalogView, CatalogError>(c0),
                catalog_of(*raw) == load_groups(gs@, gs@.len() as int),
                g.variants == Some(*vs),
                j <= vs.len(),
                n0 <= maps@.len(),
                gv0 == groups@.map_values(|g: MapGroup| g@),
                mv0 == maps@.map_values(|m: GameMap| m@).subrange(0, n0 as int),
                add_variants(mv0, gid, i as int, basename@, vs@, j as int) == Ok::<(Seq<MapView>, Seq<u16>), CatalogError>(
                    (maps@.map_values(|m: GameMap| m@), ids@),
                ),
                forall|a: int, b: int|
                    0 <= a < b < maps@.len() ==> #[trigger] maps@[a].id != #[trigger] maps@[b].id,
                forall|a: int| 0 <= a < n0 ==> has_group(gv0, #[trigger] maps@[a].gid),
                forall|a: int| 0 <= a < n0 ==> lists_map(gv0, #[trigger] maps@[a].gid, maps@[a].id),
                forall|a: int| 0 <= a < groups@.len() ==> (#[trigger] groups@[a]).variants@.len() > 0,
                vs@.len() > 0,
                forall|a: int| n0 <= a < maps@.len() ==> #[trigger] maps@[a].gid == gid,
                ids@.len() == maps@.len() - n0,
                forall|k: int| 0 <= k < ids@.len() ==> #[trigger] ids@[k] == maps@[n0 + k].id,
                forall|a: int, k: int|
                    0 <= a < groups@.len() && 0 <= k < groups@[a].variants@.len() ==> has_member(
                        maps@.map_values(|m: GameMap| m@),
                        #[trigger] groups@[a].variants@[k],
                        groups@[a].gid,
                    ),
            decreases vs.len() - j,
        {
            let m = match parse_variant(gid, i, j, &basename, &vs[j]) {
                Ok(m) => m,
                Err(e) => {
                    proof {
                        lemma_variants_error_sticks(mv0, gid, i as int, basename@, vs@, j as int, vs@.len() as int, e);
                        lemma_groups_error_sticks(gs@, i as int, gs@.len() as int, e);
                    }
                    return Err(e);
                },
            };
            if contains_map(&maps, m.id) {
                proof {
                    let e = variant_error(gid, i as int, j as int, MapFault::DuplicateId(m.id));
                    lemma_variants_error_sticks(mv0, gid, i as int, basename@, vs@, j as int, vs@.len() as int, e);
                    lemma_groups_error_sticks(gs@, i as int, gs@.len() as int, e);
                }
                return Err(variant_err(gid, i, j, MapFault::DuplicateId(m.id)));
            }
            let ghost mid = m.id;
            let ghost before = maps@;
            ids.push(m.id);
            maps.push(m);
            proof {
                assert(maps@.map_values(|m: GameMap| m@) =~= before.map_values(|m: GameMap| m@).push(maps@.last()@));
                assert(mv0 =~= maps@.map_values(|m: GameMap| m@).subrange(0, n0 as int));
                assert forall|a: int| 0 <= a < maps@.len() - 1 implies maps@[a].id != mid by {
                    assert(before.map_values(|m: GameMap| m@)[a].id == maps@[a].id);
                }
                let mv_old = before.map_values(|m: GameMap| m@);
                let mv_new = maps@.map_values(|m: GameMap| m@);
                assert forall|a: int, k: int|
                    0 <= a < groups@.len() && 0 <= k < groups@[a].variants@.len() implies has_member(
                    mv_new,
                    #[trigger] groups@[a].variants@[k],
                    groups@[a].gid,
                ) by {
                    let v = groups@[a].variants@[k];
                    let w = choose|w: int| 0 <= w < mv_old.len() && #[trigger] mv_old[w].id == v && mv_old[w].gid == groups@[a].gid;
                    assert(mv_new[w] == mv_old[w]);
                }
            }
            j = j + 1;
        }
        if contains_group(&groups, gid) {
            proof {
                lemma_groups_error_sticks(gs@, i as int, gs@.len() as int, group_error(i as int, GroupFault::DuplicateGid(gid)));
            }
            return Err(CatalogError::Group(GroupError { group: i, fault: GroupFault::DuplicateGid(gid) }));
        }
        let ghost bview = basename@;
        let ghost idsv = ids@;
        let ghost old_groups = groups@;
        groups.push(MapGroup { gid, basename, variants: ids });
        proof {
            let gv1 = groups@.map_values(|g: MapGroup| g@);
            assert(gv1 =~= gv0.push(GroupView { gid, basename: bview, variants: idsv }));
            assert(gs@.take(i + 1) =~= gs@.take(i as int).push(gs@[i as int]));
            assert forall|a: int| 0 <= a < maps@.len() implies has_group(gv1, #[trigger] maps@[a].gid) by {
                if a < n0 {
                    assert(has_group(gv0, maps@[a].gid));
                    let k = choose|k: int| 0 <= k < gv0.len() && #[trigger] gv0[k].gid == maps@[a].gid;
                    assert(gv1[k].gid == maps@[a].gid);
                } else {
                    assert(gv1[gv0.len() as int].gid == maps@[a].gid);
                }
            }
            let mvs = maps@.map_values(|m: GameMap| m@);
            assert forall|a: int, k: int|
                0 <= a < groups@.len() && 0 <= k < groups@[a].variants@.len() implies has_member(
                mvs,
                #[trigger] groups@[a].variants@[k],
                groups@[a].gid,
            ) by {
                if a == groups@.len() - 1 {
                    assert(groups@[a].variants@ == idsv);
                    assert(mvs[n0 + k].id == idsv[k]);
                    assert(mvs[n0 + k].gid == gid);
                } else {
                    assert(groups@[a] == old_groups[a]);
                }
            }
            assert forall|a: int| 0 <= a < maps@.len() implies lists_map(gv1, #[trigger] maps@[a].gid, maps@[a].id) by {
                if a < n0 {
                    assert(lists_map(gv0, maps@[a].gid, maps@[a].id));
                    let k = choose|k: int| 0 <= k < gv0.len() && #[trigger] gv0[k].gid == maps@[a].gid && gv0[k].variants.contains(maps@[a].id);
                    assert(gv1[k] == gv0[k]);
                } else {
                    let last = gv0.len() as int;
                    assert(gv1[last].variants == idsv);
                    assert(idsv[a - n0] == maps@[a].id);
                    assert(gv1[last].variants.contains(maps@[a].id));
                }
            }
            assert forall|a: int| 0 <= a < groups@.len() implies (#[trigger] groups@[a]).variants@.len() > 0 by {
                if a < old_groups.len() {
                    assert(groups@[a] == old_groups[a]);
                }
            }
            assert forall|a: int, b: int|
                0 <= a < b < groups@.len() implies #[trigger] groups@[a].gid != #[trigger] groups@[b].gid by {
                if b == gv0.len() {
                    assert(gv0[a].gid == groups@[a].gid);
                }
            }
        }
        i = i + 1;
    }
    let c = Catalog { groups, maps };
    proof {
        assert(gs@.len() == i);
        assert forall|a: int, b: int| 0 <= a < b < c@.maps.len() implies #[trigger] c@.maps[a].id
            != #[trigger] c@.maps[b].id by {
            assert(c@.maps[a].id == c.maps@[a].id && c@.maps[b].id == c.maps@[b].id);
        }
        assert forall|a: int, b: int| 0 <= a < b < c@.groups.len() implies #[trigger] c@.groups[a].gid
            != #[trigger] c@.groups[b].gid by {
            assert(c@.groups[a].gid == c.groups@[a].gid && c@.groups[b].gid == c.groups@[b].gid);
        }
        assert forall|a: int| 0 <= a < c@.maps.len() implies has_group(c@.groups, #[trigger] c@.maps[a].gid) by {
            assert(c@.maps[a].gid == c.maps@[a].gid);
        }
        assert forall|a: int| 0 <= a < c@.maps.len() implies lists_map(c@.groups, #[trigger] c@.maps[a].gid, c@.maps[a].id) by {
            assert(c@.maps[a].gid == c.maps@[a].gid && c@.maps[a].id == c.maps@[a].id);
        }
        assert forall|g: int| 0 <= g < c@.groups.len() implies (#[trigger] c@.groups[g]).variants.len() > 0 by {
            assert(c@.groups[g] == c.groups@[g]@);
        }
    }
    Ok(c)
}

/// The position of the first map with id `id`, searching from `i`.
pub open spec fn find_map_pos(maps: Seq<GameMap>, id: u16, i: int) -> Option<usize>
    decreases maps.len() - i,
{
    if i < 0 || i >= maps.len() {
        None
    } else if maps[i].id == id {
        Some(i as usize)
    } else {
        find_map_pos(maps, id, i + 1)
    }
}

/// The position of the map with id `id` in `maps`, if there is one.
pub fn find_map(maps: &Vec<GameMap>, id: u16) -> (r: Option<usize>)
    ensures
        r == find_map_pos(maps@, id, 0),
        r matches Some(p) ==> p < maps@.len() && maps@[p as int].id == id,
        r is None ==> forall|k: int| 0 <= k < maps@.len() ==> (#[trigger] maps@[k]).id != id,
{
    let mut i: usize = 0;
    while i < maps.len()
        invariant
            i <= maps@.len(),
            find_map_pos(maps@, id, 0) == find_map_pos(maps@, id, i as int),
            forall|k: int| 0 <= k < i ==> (#[trigger] maps@[k]).id != id,
        decreases maps@.len() - i,
    {
        if maps[i].id == id {
            return Some(i);
        }
        i = i + 1;
    }
    None
}

impl GameMap {
    /// The id of the group this map belongs to.
    pub fn group(&self) -> (r: u16)
        ensures
            r == self.gid,
    {
        self.gid
    }

    /// A one-line description: nickname, mode and player count.
    pub fn map_info(&self) -> (r: String)
        ensures
            r@ == self.nickname@ + " "@ + mode_name(self.mode) + " ("@ + decimal(self.players as nat) + ")"@,
    {
        let mut r = self.nickname.clone();
        r.append(" ");
        r.append(self.mode.name());
        r.append(" (");
        let players = decimal_string(self.players);
        r.append(players.as_str());
        r.append(")");
        r
    }
}

/// Two maps are the same map when their ids agree.
impl PartialEq for GameMap {
    fn eq(&self, other: &GameMap) -> (r: bool)
        ensures
            r == (self.id == other.id),
    {
        self.id == other.id
    }
}

impl vstd::std_specs::cmp::PartialEqSpecImpl for GameMap {
    open spec fn obeys_eq_spec() -> bool {
        true
    }

    open spec fn eq_spec(&self, other: &GameMap) -> bool {
        self.id == other.id
    }
}

impl Eq for GameMap {

}

/// Two groups are the same group when their gids agree.
impl PartialEq for MapGroup {
    fn eq(&self, other: &MapGroup) -> (r: bool)
        ensures
            r == (self.gid == other.gid),
    {
        self.gid == other.gid
    }
}

impl vstd::std_specs::cmp::PartialEqSpecImpl for MapGroup {
    open spec fn obeys_eq_spec() -> bool {
        true
    }

    open spec fn eq_spec(&self, other: &MapGroup) -> bool {
        self.gid == other.gid
    }
}

impl Eq for MapGroup {

}

} // verus!
