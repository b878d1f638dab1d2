//! Raw boundary data and the extraction of administrative regions from it.
//!
//! The raw data is a list of objects: nodes (points), ways, and relations.
//! A relation carries tags and references to member objects; the relations
//! tagged as administrative boundaries become [`Admin`]s.

use crate::admin::{admin_views, Admin, AdminView};
use crate::coord::Coord;
use crate::text::{
    decimal_u32, parse_u32, push_signed_decimal, signed_decimal, str_eq, strip_leading_zeros,
    without_leading_zeros,
};
use osmpbfreader::Tags;
use std::collections::HashMap;
use std::collections::HashSet;
use vstd::prelude::*;
use vstd::string::*;

verus! {

/// The weight given to every extracted region.
pub const DEFAULT_WEIGHT: u32 = 1;

/// The tags of a raw object are kept as `osmpbfreader` holds them, in its
/// `Tags`, a sorted map from keys to values.
#[verifier::external_type_specification]
#[verifier::external_body]
pub struct ExTags(osmpbfreader::Tags);

/// The mapping that tags hold: each key with the value that a lookup of the
/// key gives.
pub uninterp spec fn tags_of(tags: Tags) -> Map<Seq<char>, Seq<char>>;

/// Looks a key up with `get` of the `FlatMap` that `Tags` dereferences to, a
/// binary search among the sorted keys. It gives the value of the key where
/// the tags hold the key, and nothing where they do not.
#[verifier::external_body]
fn tag_value<'a>(tags: &'a Tags, key: &str) -> (r: Option<&'a str>)
    ensures
        match r {
            Some(value) => tags_of(*tags).contains_key(key@) && tags_of(*tags)[key@] == value@,
            None => !tags_of(*tags).contains_key(key@),
        },
{
    tags.get(key).map(|value| value.as_str())
}

/// The identifier of a raw object.
#[derive(Clone, Copy, Debug, PartialEq, Eq, Structural)]
pub enum OsmId {
    Node(i64),
    Way(i64),
    Relation(i64),
}

/// A point of the raw data.
#[derive(Clone, Copy, Debug)]
pub struct Node {
    pub id: i64,
    pub coord: Coord,
}

/// A line of the raw data.
#[derive(Clone, Copy, Debug)]
pub struct Way {
    pub id: i64,
}

/// A member of a relation and the role it plays there.
#[derive(Debug)]
pub struct Ref {
    pub member: OsmId,
    pub role: String,
}

/// A relation of the raw data.
#[derive(Debug)]
pub struct Relation {
    pub id: i64,
    pub tags: Tags,
    pub refs: Vec<Ref>,
}

/// A raw object.
#[derive(Debug)]
pub enum OsmObj {
    Node(Node),
    Way(Way),
    Relation(Relation),
}

/// Why a relation gives no region.
#[derive(Clone, Copy, Debug, PartialEq, Eq, Structural)]
pub enum Skipped {
    /// It is not tagged as an administrative boundary.
    NotAdministrative,
    /// Its level tag is missing or is no number.
    InvalidLevel,
    /// Its level is not among the levels to keep.
    LevelNotKept,
    /// It has no name.
    MissingName,
}

/// The level of the region that the tags describe, or why they describe none.
pub open spec fn classify(tags: Map<Seq<char>, Seq<char>>, levels: Set<u32>) -> Result<
    u32,
    Skipped,
> {
    if !(tags.contains_key("boundary"@) && tags["boundary"@] == "administrative"@) {
        Err(Skipped::NotAdministrative)
    } else if !tags.contains_key("admin_level"@) {
        Err(Skipped::InvalidLevel)
    } else {
        match decimal_u32(tags["admin_level"@]) {
            None => Err(Skipped::InvalidLevel),
            Some(level) => if !levels.contains(level) {
                Err(Skipped::LevelNotKept)
            } else if !tags.contains_key("name"@) {
                Err(Skipped::MissingName)
            } else {
                Ok(level)
            },
        }
    }
}

/// The tags are those of an administrative boundary of a level to keep.
pub open spec fn is_kept_boundary(tags: Map<Seq<char>, Seq<char>>, levels: Set<u32>) -> bool {
    &&& tags.contains_key("boundary"@) && tags["boundary"@] == "administrative"@
    &&& tags.contains_key("admin_level"@)
    &&& decimal_u32(tags["admin_level"@]) matches Some(level) && levels.contains(level)
}

/// The identifier of a region: from its authoritative code without leading
/// zeros where it has one, else from the number of its relation.
pub open spec fn admin_id(code: Option<Seq<char>>, relation: int) -> Seq<char> {
    match code {
        Some(c) => "admin:fr:"@ + without_leading_zeros(c),
        None => "admin:osm:"@ + signed_decimal(relation),
    }
}

/// The member of the first reference with the given role.
pub open spec fn first_with_role(refs: Seq<Ref>, role: Seq<char>) -> Option<OsmId>
    decreases refs.len(),
{
    if refs.len() == 0 {
        None
    } else if refs[0].role@ == role {
        Some(refs[0].member)
    } else {
        first_with_role(refs.drop_first(), role)
    }
}

/// The centre of a relation: the position of the member in the role
/// `admin_centre`, where the first such member is a known node.
pub open spec fn centre(refs: Seq<Ref>, nodes: Map<i64, Coord>) -> Option<Coord> {
    match first_with_role(refs, "admin_centre"@) {
        Some(OsmId::Node(id)) => if nodes.contains_key(id) {
            Some(nodes[id])
        } else {
            None
        },
        _ => None,
    }
}

/// The positions of the nodes among `objects`, by identifier. Where an
/// identifier occurs twice, the last node counts.
pub open spec fn node_coords(objects: Seq<OsmObj>) -> Map<i64, Coord>
    decreases objects.len(),
{
    if objects.len() == 0 {
        Map::empty()
    } else {
        let before = node_coords(objects.drop_last());
        match objects.last() {
            OsmObj::Node(node) => before.insert(node.id, node.coord),
            _ => before,
        }
    }
}

/// The region that a relation of level `level` describes.
pub open spec fn region_of(relation: Relation, level: u32, nodes: Map<i64, Coord>) -> AdminView {
    let tags = tags_of(relation.tags);
    let code = if tags.contains_key("ref:INSEE"@) {
        Some(tags["ref:INSEE"@])
    } else {
        None
    };
    AdminView {
        id: admin_id(code, relation.id as int),
        level: level,
        name: tags["name"@],
        zip_code: if tags.contains_key("addr:postcode"@) {
            tags["addr:postcode"@]
        } else {
            Seq::empty()
        },
        weight: DEFAULT_WEIGHT,
        coord: centre(relation.refs@, nodes),
        boundary: None,
        insee: match code {
            Some(c) => without_leading_zeros(c),
            None => Seq::empty(),
        },
    }
}

/// The region that a raw object gives, if it gives one.
pub open spec fn region_of_object(obj: OsmObj, levels: Set<u32>, nodes: Map<i64, Coord>) -> Option<
    AdminView,
> {
    match obj {
        OsmObj::Relation(relation) => match classify(tags_of(relation.tags), levels) {
            Ok(level) => Some(region_of(relation, level, nodes)),
            Err(_) => None,
        },
        _ => None,
    }
}

/// The regions that raw objects give, in the order of the objects.
pub open spec fn regions_of(objects: Seq<OsmObj>, levels: Set<u32>) -> Seq<AdminView> {
    objects.filter_map(|obj: OsmObj| region_of_object(obj, levels, node_coords(objects)))
}

/// Builds the identifier of a region.
pub fn make_admin_id(code: Option<&str>, relation: i64) -> (id: String)
    ensures
        id@ == admin_id(
            match code {
                Some(c) => Some(c@),
                None => None,
            },
            relation as int,
        ),
{
    match code {
        Some(c) => {
            let mut id = String::from_str("admin:fr:");
            id.append(strip_leading_zeros(c));
            id
        },
        None => {
            let mut id = String::from_str("admin:osm:");
            push_signed_decimal(&mut id, relation);
            id
        },
    }
}

/// Finds the centre of a relation among its members.
pub fn admin_centre(refs: &Vec<Ref>, nodes: &HashMap<i64, Coord>) -> (r: Option<Coord>)
    ensures
        r == centre(refs@, nodes@),
{
    let mut i: usize = 0;
    assert(refs@.skip(0) == refs@);
    while i < refs.len()
        invariant
            i <= refs.len(),
            first_with_role(refs@, "admin_centre"@) == first_with_role(
                refs@.skip(i as int),
                "admin_centre"@,
            ),
        decreases refs.len() - i,
    {
        assert(refs@.skip(i as int).drop_first() == refs@.skip(i as int + 1));
        if str_eq(refs[i].role.as_str(), "admin_centre") {
            return match refs[i].member {
                OsmId::Node(id) => match nodes.get(&id) {
                    Some(c) => Some(*c),
                    None => None,
                },
                _ => None,
            };
        }
        i += 1;
    }
    None
}

/// Collects the positions of the nodes among `objects`.
pub fn index_nodes(objects: &Vec<OsmObj>) -> (nodes: HashMap<i64, Coord>)
    ensures
        nodes@ == node_coords(objects@),
{
    let mut nodes: HashMap<i64, Coord> = HashMap::new();
    let mut i: usize = 0;
    while i < objects.len()
        invariant
            i <= objects.len(),
            nodes@ == node_coords(objects@.take(i as int)),
        decreases objects.len() - i,
    {
        assert(objects@.take(i as int + 1).drop_last() == objects@.take(i as int));
        match &objects[i] {
            OsmObj::Node(node) => {
                nodes.insert(node.id, node.coord);
            },
            _ => {},
        }
        i += 1;
    }
    assert(objects@.take(i as int) == objects@);
    nodes
}

/// Picks the administrative boundaries of the levels to keep.
#[derive(Debug)]
pub struct AdminMatcher {
    admin_levels: HashSet<u32>,
}

impl AdminMatcher {
    /// The levels that the matcher keeps.
    pub closed spec fn levels(&self) -> Set<u32> {
        self.admin_levels@
    }

    /// A matcher that keeps the given levels.
    pub fn new(levels: HashSet<u32>) -> (matcher: AdminMatcher)
        ensures
            matcher.levels() == levels@,
    {
        AdminMatcher { admin_levels: levels }
    }

    /// The level of the region that `relation` describes, or why it
    /// describes none.
    pub fn classify(&self, relation: &Relation) -> (r: Result<u32, Skipped>)
        ensures
            r == classify(tags_of(relation.tags), self.levels()),
    {
        let administrative = match tag_value(&relation.tags, "boundary") {
            Some(kind) => str_eq(kind, "administrative"),
            None => false,
        };
        if !administrative {
            return Err(Skipped::NotAdministrative);
        }
        let level = match tag_value(&relation.tags, "admin_level") {
            Some(text) => parse_u32(text),
            None => None,
        };
        match level {
            None => Err(Skipped::InvalidLevel),
            Some(level) => {
                if !self.admin_levels.contains(&level) {
                    Err(Skipped::LevelNotKept)
                } else if tag_value(&relation.tags, "name").is_none() {
                    Err(Skipped::MissingName)
                } else {
                    Ok(level)
                }
            },
        }
    }

    /// Whether `obj` is a relation tagged as an administrative boundary of
    /// a level to keep.
    pub fn is_admin(&self, obj: &OsmObj) -> (r: bool)
        ensures
            r == match *obj {
                OsmObj::Relation(relation) => is_kept_boundary(tags_of(relation.tags), self.levels()),
                _ => false,
            },
    {
        match obj {
            OsmObj::Relation(relation) => match self.classify(relation) {
                Ok(_) => true,
                Err(Skipped::MissingName) => true,
                Err(_) => false,
            },
            _ => false,
        }
    }

    /// The region that `relation` describes, or why it describes none.
    /// `nodes` holds the positions of the known nodes.
    pub fn extract(&self, relation: &Relation, nodes: &HashMap<i64, Coord>) -> (r: Result<
        Admin,
        Skipped,
    >)
        ensures
            match r {
                Ok(admin) => classify(tags_of(relation.tags), self.levels()) matches Ok(level) && admin@
                    == region_of(*relation, level, nodes@),
                Err(reason) => classify(tags_of(relation.tags), self.levels()) == Err::<u32, Skipped>(
                    reason,
                ),
            },
    {
        let level = match self.classify(relation) {
            Ok(level) => level,
            Err(reason) => {
                return Err(reason);
            },
        };
        let name = match tag_value(&relation.tags, "name") {
            Some(name) => name.to_owned(),
            None => String::new(),
        };
        let code = tag_value(&relation.tags, "ref:INSEE");
        let id = make_admin_id(code, relation.id);
        let insee = match code {
            Some(c) => strip_leading_zeros(c).to_owned(),
            None => String::new(),
        };
        let zip_code = match tag_value(&relation.tags, "addr:postcode") {
            Some(zip) => zip.to_owned(),
            None => String::new(),
        };
        let admin = Admin {
            id: id,
            level: level,
            name: name,
            zip_code: zip_code,
            weight: DEFAULT_WEIGHT,
            coord: admin_centre(&relation.refs, nodes),
            boundary: None,
            insee: insee,
        };
        assert(admin@ =~= region_of(*relation, level, nodes@));
        Ok(admin)
    }
}

/// Extracts the administrative regions of the levels to keep from raw
/// objects, in the order of the objects. A relation that is no boundary of
/// such a level, or that lacks a valid level or a name, gives none.
pub fn administrative_regions(objects: &Vec<OsmObj>, levels: HashSet<u32>) -> (admins: Vec<Admin>)
    ensures
        admin_views(admins@) == regions_of(objects@, levels@),
{
    let matcher = AdminMatcher::new(levels);
    let nodes = index_nodes(objects);
    let mut admins: Vec<Admin> = Vec::new();
    let ghost region = |obj: OsmObj| region_of_object(obj, levels@, node_coords(objects@));
    let mut i: usize = 0;
    while i < objects.len()
        invariant
            i <= objects.len(),
            matcher.levels() == levels@,
            nodes@ == node_coords(objects@),
            region == |obj: OsmObj| region_of_object(obj, levels@, node_coords(objects@)),
            admin_views(admins@) == objects@.take(i as int).filter_map(region),
        decreases objects.len() - i,
    {
        let ghost before = admin_views(admins@);
        assert(objects@.take(i as int + 1).drop_last() == objects@.take(i as int));
        match &objects[i] {
            OsmObj::Relation(relation) => {
                match matcher.extract(relation, &nodes) {
                    Ok(admin) => {
                        admins.push(admin);
                        assert(admin_views(admins@) =~= before + seq![admin@]);
                    },
                    Err(_) => {},
                }
            },
            _ => {},
        }
        i += 1;
    }
    assert(objects@.take(i as int) == objects@);
    admins
}

/// A relation without a name gives no region, whatever else it holds.
pub proof fn lemma_nameless_gives_no_region(
    relation: Relation,
    levels: Set<u32>,
    nodes: Map<i64, Coord>,
)
    requires
        !tags_of(relation.tags).contains_key("name"@),
    ensures
        region_of_object(OsmObj::Relation(relation), levels, nodes) is None,
{
}

/// The relation `obj` is an administrative boundary of a level to keep, it
/// has a name, and `region` carries that level and that name.
pub open spec fn is_source_of(obj: OsmObj, levels: Set<u32>, region: AdminView) -> bool {
    match obj {
        OsmObj::Relation(relation) => {
            &&& is_kept_boundary(tags_of(relation.tags), levels)
            &&& tags_of(relation.tags).contains_key("name"@)
            &&& region.name == tags_of(relation.tags)["name"@]
            &&& decimal_u32(tags_of(relation.tags)["admin_level"@]) == Some(region.level)
        },
        _ => false,
    }
}

/// Every extracted region comes from a relation among the objects: from an
/// administrative boundary of a level to keep that has a name.
pub proof fn lemma_region_has_a_source(objects: Seq<OsmObj>, levels: Set<u32>, region: AdminView)
    requires
        regions_of(objects, levels).contains(region),
    ensures
        exists|j: int| 0 <= j < objects.len() && is_source_of(#[trigger] objects[j], levels, region),
{
    let give = |obj: OsmObj| region_of_object(obj, levels, node_coords(objects));
    objects.lemma_filter_map_contains(give, region);
    let source = choose|t: OsmObj| #[trigger] objects.contains(t) && give(t) == Some(region);
    let j = choose|j: int| 0 <= j < objects.len() && objects[j] == source;
    assert(is_source_of(objects[j], levels, region));
}

} // verus!
