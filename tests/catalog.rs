use map_picker::catalog::{
    find_map, load_map_data, CatalogError, Field, GroupError, GroupFault, MapError, MapFault,
    RawGroup, RawVariant,
};
use map_picker::mode::Mode;

fn variant(id: Field, mode: Field, players: Field) -> RawVariant {
    RawVariant { id, players, mode, gag: Field::Null, nickname: Field::Null, disabled: Field::Null }
}

fn td(id: u16) -> RawVariant {
    variant(Field::Number(Some(id)), Field::Text("TD".to_string()), Field::Number(Some(16)))
}

fn group(gid: Field, name: Field, variants: Option<Vec<RawVariant>>) -> RawGroup {
    RawGroup { gid, name, variants }
}

fn named(gid: u16, variants: Vec<RawVariant>) -> RawGroup {
    group(Field::Number(Some(gid)), Field::Text("Base".to_string()), Some(variants))
}

fn map_error(gid: u16, group: usize, variant: usize, fault: MapFault) -> CatalogError {
    CatalogError::Variant(MapError { gid, group, variant, fault })
}

#[test]
fn loads_groups_and_maps_in_order() {
    let mut special = td(7);
    special.nickname = Field::Text("Special".to_string());
    special.gag = Field::Bool(true);
    special.disabled = Field::Bool(false);
    special.mode = Field::Text("captain".to_string());
    let c = load_map_data(&Some(vec![named(3, vec![td(5), special]), named(1, vec![td(2)])])).unwrap();
    assert_eq!(c.groups.len(), 2);
    assert_eq!(c.groups[0].gid, 3);
    assert_eq!(c.groups[0].variants, vec![5, 7]);
    assert_eq!(c.groups[1].variants, vec![2]);
    let ids: Vec<u16> = c.maps.iter().map(|m| m.id).collect();
    assert_eq!(ids, vec![5, 7, 2]);
    assert_eq!(c.maps[0].nickname, "Base");
    assert_eq!(c.maps[1].nickname, "Special");
    assert_eq!(c.maps[1].mode, Mode::Captain);
    assert!(c.maps[1].is_gag);
    assert!(!c.maps[1].disabled);
    assert_eq!(c.maps[2].gid, 1);
    assert_eq!(c.maps[2].group(), 1);
    assert_eq!(find_map(&c.maps, 7), Some(1));
    assert_eq!(find_map(&c.maps, 8), None);
}

#[test]
fn not_a_list_is_an_error() {
    assert_eq!(load_map_data(&None).unwrap_err(), CatalogError::NotAList);
}

#[test]
fn group_field_errors() {
    let bad_gid = group(Field::Number(None), Field::Text("X".to_string()), Some(vec![td(3)]));
    assert_eq!(
        load_map_data(&Some(vec![named(1, vec![td(1)]), bad_gid])).unwrap_err(),
        CatalogError::Group(GroupError { group: 1, fault: GroupFault::GidNotU16 })
    );
    let empty_name = group(Field::Number(Some(2)), Field::Text(String::new()), Some(vec![td(3)]));
    assert_eq!(
        load_map_data(&Some(vec![empty_name])).unwrap_err(),
        CatalogError::Group(GroupError { group: 0, fault: GroupFault::BadBasename })
    );
    let no_name = group(Field::Number(Some(2)), Field::Null, Some(vec![td(3)]));
    assert_eq!(
        load_map_data(&Some(vec![no_name])).unwrap_err(),
        CatalogError::Group(GroupError { group: 0, fault: GroupFault::BadBasename })
    );
    let no_list = group(Field::Number(Some(2)), Field::Text("X".to_string()), None);
    assert_eq!(
        load_map_data(&Some(vec![no_list])).unwrap_err(),
        CatalogError::Group(GroupError { group: 0, fault: GroupFault::VariantsNotList })
    );
}

#[test]
fn duplicate_gid_is_an_error() {
    assert_eq!(
        load_map_data(&Some(vec![named(4, vec![td(1)]), named(4, vec![td(2)])])).unwrap_err(),
        CatalogError::Group(GroupError { group: 1, fault: GroupFault::DuplicateGid(4) })
    );
}

#[test]
fn duplicate_map_id_is_an_error() {
    assert_eq!(
        load_map_data(&Some(vec![named(4, vec![td(1)]), named(5, vec![td(2), td(1)])])).unwrap_err(),
        map_error(5, 1, 1, MapFault::DuplicateId(1))
    );
}

#[test]
fn variant_field_errors() {
    let cases: Vec<(RawVariant, MapFault)> = vec![
        (variant(Field::Text("1".to_string()), Field::Text("TD".to_string()), Field::Number(Some(8))), MapFault::IdNotU16),
        (variant(Field::Number(Some(1)), Field::Text("TD".to_string()), Field::Number(None)), MapFault::PlayersNotU16),
        (variant(Field::Number(Some(1)), Field::Number(Some(3)), Field::Number(Some(8))), MapFault::ModeNotText),
        (variant(Field::Number(Some(1)), Field::Text("Race".to_string()), Field::Number(Some(8))), MapFault::UnknownMode),
    ];
    for (v, fault) in cases {
        assert_eq!(load_map_data(&Some(vec![named(9, vec![td(2), v])])).unwrap_err(), map_error(9, 0, 1, fault));
    }
    let mut v = td(1);
    v.gag = Field::Text("yes".to_string());
    assert_eq!(load_map_data(&Some(vec![named(9, vec![v])])).unwrap_err(), map_error(9, 0, 0, MapFault::GagNotBool));
    let mut v = td(1);
    v.nickname = Field::Text(String::new());
    assert_eq!(load_map_data(&Some(vec![named(9, vec![v])])).unwrap_err(), map_error(9, 0, 0, MapFault::BadNickname));
    let mut v = td(1);
    v.nickname = Field::Bool(true);
    assert_eq!(load_map_data(&Some(vec![named(9, vec![v])])).unwrap_err(), map_error(9, 0, 0, MapFault::BadNickname));
    let mut v = td(1);
    v.disabled = Field::Other;
    assert_eq!(load_map_data(&Some(vec![named(9, vec![v])])).unwrap_err(), map_error(9, 0, 0, MapFault::DisabledNotBool));
}

#[test]
fn first_bad_field_of_a_variant_decides() {
    let v = variant(Field::Null, Field::Null, Field::Null);
    assert_eq!(load_map_data(&Some(vec![named(9, vec![v])])).unwrap_err(), map_error(9, 0, 0, MapFault::IdNotU16));
}

#[test]
fn map_info_describes_a_map() {
    let c = load_map_data(&Some(vec![named(3, vec![td(5)])])).unwrap();
    assert_eq!(c.maps[0].map_info(), "Base TD (16)");
}

#[test]
fn maps_compare_by_id() {
    let a = load_map_data(&Some(vec![named(3, vec![td(5)])])).unwrap();
    let mut other = td(5);
    other.mode = Field::Text("DM".to_string());
    let b = load_map_data(&Some(vec![named(4, vec![other])])).unwrap();
    assert!(a.maps[0] == b.maps[0]);
    assert!(a.groups[0] != b.groups[0]);
}

#[test]
fn empty_variant_list_is_an_error() {
    let empty = group(Field::Number(Some(1)), Field::Text("a".to_string()), Some(vec![]));
    assert_eq!(
        load_map_data(&Some(vec![named(2, vec![td(5)]), empty])).unwrap_err(),
        CatalogError::Group(GroupError { group: 1, fault: GroupFault::NoVariants })
    );
}
