use mimirsbrunn::admin::Admin;
use mimirsbrunn::coord::Coord;
use mimirsbrunn::osm::{
    admin_centre, administrative_regions, index_nodes, make_admin_id, AdminMatcher, Node, OsmId,
    OsmObj, Ref, Relation, Skipped, Way, DEFAULT_WEIGHT,
};
use osmpbfreader::Tags;
use std::collections::HashSet;

fn tags(pairs: &[(&str, &str)]) -> Tags {
    pairs.iter().map(|&(k, v)| (k.into(), v.into())).collect()
}

fn levels(kept: &[u32]) -> HashSet<u32> {
    kept.iter().cloned().collect()
}

fn relation(id: i64, pairs: &[(&str, &str)]) -> Relation {
    Relation { id, tags: tags(pairs), refs: vec![] }
}

fn city(id: i64, name: &str) -> Relation {
    relation(id, &[("boundary", "administrative"), ("admin_level", "8"), ("name", name)])
}

fn node(id: i64, lon: i32, lat: i32) -> OsmObj {
    OsmObj::Node(Node { id, coord: Coord { lon, lat } })
}

fn member(member: OsmId, role: &str) -> Ref {
    Ref { member, role: role.to_string() }
}

fn extract_one(rel: Relation, kept: &[u32]) -> Vec<Admin> {
    administrative_regions(&vec![OsmObj::Relation(rel)], levels(kept))
}

#[test]
fn code_gives_the_identifier_without_leading_zeros() {
    let rel = relation(
        7444,
        &[
            ("boundary", "administrative"),
            ("admin_level", "8"),
            ("name", "Paris"),
            ("ref:INSEE", "0075056"),
        ],
    );
    let admins = extract_one(rel, &[8]);
    assert_eq!(admins.len(), 1);
    assert_eq!(admins[0].id, "admin:fr:75056");
    assert_eq!(admins[0].insee, "75056");
    assert_eq!(admins[0].name, "Paris");
    assert_eq!(admins[0].level, 8);
}

#[test]
fn relation_number_gives_the_identifier_without_a_code() {
    let admins = extract_one(city(123, "Lutetia"), &[8]);
    assert_eq!(admins.len(), 1);
    assert_eq!(admins[0].id, "admin:osm:123");
    assert_eq!(admins[0].insee, "");
}

#[test]
fn make_admin_id_covers_both_forms() {
    assert_eq!(make_admin_id(Some("0075056"), 1), "admin:fr:75056");
    assert_eq!(make_admin_id(Some("2A004"), 1), "admin:fr:2A004");
    assert_eq!(make_admin_id(Some("000"), 1), "admin:fr:");
    assert_eq!(make_admin_id(None, 0), "admin:osm:0");
    assert_eq!(make_admin_id(None, 123), "admin:osm:123");
    assert_eq!(make_admin_id(None, -5), "admin:osm:-5");
    assert_eq!(make_admin_id(None, i64::MAX), "admin:osm:9223372036854775807");
    assert_eq!(make_admin_id(None, i64::MIN), "admin:osm:-9223372036854775808");
}

#[test]
fn relation_without_name_is_skipped() {
    let rel = relation(9, &[("boundary", "administrative"), ("admin_level", "8")]);
    let matcher = AdminMatcher::new(levels(&[8]));
    assert_eq!(matcher.classify(&rel), Err(Skipped::MissingName));
    let nodes = index_nodes(&vec![]);
    assert_eq!(matcher.extract(&rel, &nodes).err(), Some(Skipped::MissingName));
    let admins = administrative_regions(
        &vec![OsmObj::Relation(rel), OsmObj::Relation(city(10, "Named"))],
        levels(&[8]),
    );
    assert_eq!(admins.len(), 1);
    assert_eq!(admins[0].id, "admin:osm:10");
}

#[test]
fn relation_without_level_is_invalid() {
    let rel = relation(9, &[("boundary", "administrative"), ("name", "Nowhere")]);
    let matcher = AdminMatcher::new(levels(&[8]));
    assert_eq!(matcher.classify(&rel), Err(Skipped::InvalidLevel));
    assert!(extract_one(rel, &[8]).is_empty());
}

#[test]
fn level_that_is_no_number_is_invalid() {
    let matcher = AdminMatcher::new(levels(&[0, 8]));
    for text in ["eight", "", " 8", "8 ", "-8", "8.0", "4294967296", "+", "٨"] {
        let rel = relation(
            9,
            &[("boundary", "administrative"), ("admin_level", text), ("name", "Nowhere")],
        );
        assert_eq!(matcher.classify(&rel), Err(Skipped::InvalidLevel), "level {:?}", text);
        assert!(!matcher.is_admin(&OsmObj::Relation(rel)), "level {:?}", text);
    }
}

#[test]
fn level_is_read_as_a_decimal_number() {
    let matcher = AdminMatcher::new(levels(&[8, 4294967295]));
    for (text, level) in [("8", 8), ("+8", 8), ("008", 8), ("4294967295", 4294967295)] {
        let rel = relation(
            9,
            &[("boundary", "administrative"), ("admin_level", text), ("name", "Somewhere")],
        );
        assert_eq!(matcher.classify(&rel), Ok(level), "level {:?}", text);
    }
}

#[test]
fn level_outside_the_kept_levels_is_skipped() {
    let rel = relation(
        9,
        &[("boundary", "administrative"), ("admin_level", "6"), ("name", "Department")],
    );
    let matcher = AdminMatcher::new(levels(&[4, 8]));
    assert_eq!(matcher.classify(&rel), Err(Skipped::LevelNotKept));
    assert!(!matcher.is_admin(&OsmObj::Relation(rel)));
}

#[test]
fn relation_that_is_no_administrative_boundary_is_skipped() {
    let matcher = AdminMatcher::new(levels(&[8]));
    let untagged = relation(1, &[("admin_level", "8"), ("name", "A")]);
    assert_eq!(matcher.classify(&untagged), Err(Skipped::NotAdministrative));
    let other = relation(2, &[("boundary", "political"), ("admin_level", "8"), ("name", "A")]);
    assert_eq!(matcher.classify(&other), Err(Skipped::NotAdministrative));
    let prefix = relation(3, &[("boundary", "admin"), ("admin_level", "8"), ("name", "A")]);
    assert_eq!(matcher.classify(&prefix), Err(Skipped::NotAdministrative));
    assert!(!matcher.is_admin(&OsmObj::Relation(untagged)));
}

#[test]
fn is_admin_accepts_kept_boundaries_only() {
    let matcher = AdminMatcher::new(levels(&[8]));
    assert!(matcher.is_admin(&OsmObj::Relation(city(1, "Paris"))));
    let nameless = relation(2, &[("boundary", "administrative"), ("admin_level", "8")]);
    assert!(matcher.is_admin(&OsmObj::Relation(nameless)));
    assert!(!matcher.is_admin(&node(3, 0, 0)));
    assert!(!matcher.is_admin(&OsmObj::Way(Way { id: 4 })));
    let none = AdminMatcher::new(levels(&[]));
    assert!(!none.is_admin(&OsmObj::Relation(city(5, "Paris"))));
}

#[test]
fn tags_are_found_by_their_whole_key() {
    let matcher = AdminMatcher::new(levels(&[8]));
    let near_misses = relation(
        1,
        &[
            ("boundaries", "administrative"),
            ("boundar", "administrative"),
            ("Boundary", "administrative"),
            ("admin_level", "8"),
            ("name", "A"),
        ],
    );
    assert_eq!(matcher.classify(&near_misses), Err(Skipped::NotAdministrative));
    let among_many = relation(
        2,
        &[
            ("wikipedia", "fr:Paris"),
            ("name", "Paris"),
            ("boundary", "administrative"),
            ("type", "boundary"),
            ("admin_level", "8"),
            ("name:fr", "Paris"),
            ("admin_levels", "9"),
        ],
    );
    assert_eq!(matcher.classify(&among_many), Ok(8));
    let mut later = Tags::new();
    later.insert("boundary".into(), "political".into());
    later.insert("admin_level".into(), "8".into());
    later.insert("name".into(), "B".into());
    later.insert("boundary".into(), "administrative".into());
    assert_eq!(matcher.classify(&Relation { id: 3, tags: later, refs: vec![] }), Ok(8));
}

#[test]
fn extracted_region_takes_its_fields_from_the_tags() {
    let rel = relation(
        42,
        &[
            ("boundary", "administrative"),
            ("admin_level", "6"),
            ("name", "Finistère"),
            ("addr:postcode", "29000"),
            ("ref:INSEE", "29"),
        ],
    );
    let admins = extract_one(rel, &[6]);
    assert_eq!(admins.len(), 1);
    let admin = &admins[0];
    assert_eq!(admin.id, "admin:fr:29");
    assert_eq!(admin.level, 6);
    assert_eq!(admin.name, "Finistère");
    assert_eq!(admin.zip_code, "29000");
    assert_eq!(admin.weight, DEFAULT_WEIGHT);
    assert_eq!(admin.weight, 1);
    assert_eq!(admin.coord, None);
    assert!(admin.boundary.is_none());
    assert_eq!(admin.insee, "29");
}

#[test]
fn postal_code_defaults_to_empty() {
    let admins = extract_one(city(1, "Paris"), &[8]);
    assert_eq!(admins[0].zip_code, "");
}

#[test]
fn centre_is_the_node_in_the_admin_centre_role() {
    let mut rel = city(1, "Paris");
    rel.refs = vec![
        member(OsmId::Way(5), "outer"),
        member(OsmId::Node(7), "label"),
        member(OsmId::Node(8), "admin_centre"),
    ];
    let objects = vec![
        node(7, 10, 20),
        node(8, 23_522_000, 488_566_000),
        OsmObj::Relation(rel),
    ];
    let admins = administrative_regions(&objects, levels(&[8]));
    assert_eq!(admins.len(), 1);
    assert_eq!(admins[0].coord, Some(Coord { lon: 23_522_000, lat: 488_566_000 }));
}

#[test]
fn centre_is_absent_without_a_resolvable_node() {
    let nodes = index_nodes(&vec![node(8, 1, 2)]);
    assert_eq!(admin_centre(&vec![], &nodes), None);
    assert_eq!(admin_centre(&vec![member(OsmId::Node(8), "label")], &nodes), None);
    assert_eq!(admin_centre(&vec![member(OsmId::Node(9), "admin_centre")], &nodes), None);
    assert_eq!(admin_centre(&vec![member(OsmId::Way(8), "admin_centre")], &nodes), None);
    assert_eq!(admin_centre(&vec![member(OsmId::Relation(8), "admin_centre")], &nodes), None);
    assert_eq!(
        admin_centre(&vec![member(OsmId::Node(8), "admin_centre")], &nodes),
        Some(Coord { lon: 1, lat: 2 })
    );
}

#[test]
fn first_admin_centre_member_decides() {
    let nodes = index_nodes(&vec![node(8, 1, 2), node(9, 3, 4)]);
    let unresolved_first =
        vec![member(OsmId::Way(1), "admin_centre"), member(OsmId::Node(8), "admin_centre")];
    assert_eq!(admin_centre(&unresolved_first, &nodes), None);
    let two_nodes =
        vec![member(OsmId::Node(9), "admin_centre"), member(OsmId::Node(8), "admin_centre")];
    assert_eq!(admin_centre(&two_nodes, &nodes), Some(Coord { lon: 3, lat: 4 }));
}

#[test]
fn last_node_of_a_repeated_identifier_counts() {
    let nodes = index_nodes(&vec![node(8, 1, 2), node(8, 5, 6)]);
    assert_eq!(nodes.len(), 1);
    assert_eq!(nodes.get(&8), Some(&Coord { lon: 5, lat: 6 }));
}

#[test]
fn regions_come_in_the_order_of_the_objects() {
    let objects = vec![
        OsmObj::Relation(city(3, "C")),
        node(1, 0, 0),
        OsmObj::Relation(relation(4, &[("boundary", "administrative"), ("admin_level", "8")])),
        OsmObj::Relation(city(1, "A")),
        OsmObj::Relation(relation(
            5,
            &[("boundary", "administrative"), ("admin_level", "2"), ("name", "Country")],
        )),
        OsmObj::Relation(city(2, "B")),
    ];
    let admins = administrative_regions(&objects, levels(&[8]));
    let names: Vec<&str> = admins.iter().map(|a| a.name.as_str()).collect();
    assert_eq!(names, vec!["C", "A", "B"]);
    assert!(administrative_regions(&vec![], levels(&[8])).is_empty());
}
