//! Address records and the documents built from them.

use crate::admin::AdminView;
use crate::admin_geofinder::AdminGeoFinder;
use crate::coord::Coord;
use crate::resolver::{is_resolution, resolve, weight, weight_of};
use crate::text::{
    byte_prefix, cuts_at, degrees, lemma_byte_prefix_ascii, prefix_bytes, push_degrees,
    strip_leading_zeros, without_leading_zeros,
};
use vstd::prelude::*;
use vstd::string::*;
use vstd::utf8::is_ascii_chars;

verus! {

/// One address of the national address base. The identifier starts with the
/// five characters of the code of the city and goes on with the five of the
/// street; `lat` and `lon` count 10⁻⁷ degrees.
#[derive(Debug)]
pub struct Bano {
    pub id: String,
    pub nb: String,
    pub street: String,
    pub zip: String,
    pub city: String,
    pub src: String,
    pub lat: i32,
    pub lon: i32,
}

/// A street, as it is indexed.
#[derive(Debug)]
pub struct Street {
    pub id: String,
    pub street_name: String,
    pub label: String,
    /// The handles of the regions that the street lies in.
    pub administrative_regions: Vec<usize>,
    pub weight: u32,
    pub zip_codes: Vec<String>,
    pub coord: Coord,
}

/// An address, as it is indexed.
#[derive(Debug)]
pub struct Addr {
    pub id: String,
    pub house_number: String,
    pub street: Street,
    pub label: String,
    pub coord: Coord,
    pub weight: u32,
    pub zip_codes: Vec<String>,
}

/// Why a record gives no address.
#[derive(Clone, Copy, Debug, PartialEq, Eq, Structural)]
pub enum BanoError {
    /// The identifier does not hold the codes of city and street: it cannot
    /// be cut after five bytes and after ten.
    MalformedId,
}

/// The label of a street: its name, then the city in brackets.
pub open spec fn street_label(street: Seq<char>, city: Seq<char>) -> Seq<char> {
    street + " ("@ + city + ")"@
}

/// The label of an address: number and street, then the city in brackets.
pub open spec fn addr_label(nb: Seq<char>, street: Seq<char>, city: Seq<char>) -> Seq<char> {
    nb + " "@ + street + " ("@ + city + ")"@
}

/// The identifier of an address: its position in degrees, longitude first.
pub open spec fn addr_id(position: Coord) -> Seq<char> {
    "addr:"@ + degrees(position.lon as int) + ";"@ + degrees(position.lat as int)
}

impl Bano {
    /// The identifier holds the codes of city and street: it can be cut
    /// after five bytes and after ten.
    pub open spec fn has_codes(&self) -> bool {
        cuts_at(self.id@, 5) && cuts_at(self.id@, 10)
    }

    /// The position of the address.
    pub open spec fn position(&self) -> Coord {
        Coord { lon: self.lon, lat: self.lat }
    }

    /// The code of the city as the regions carry it: the first five bytes of
    /// the identifier without their leading zeros.
    pub open spec fn spec_insee(&self) -> Seq<char> {
        without_leading_zeros(byte_prefix(self.id@, 5))
    }

    /// `addr` is the address that this record gives over the regions
    /// `admins`, with `city_level` as the level of cities.
    pub open spec fn gives(&self, addr: Addr, admins: Seq<AdminView>, city_level: u32) -> bool {
        &&& addr.id@ == addr_id(self.position())
        &&& addr.house_number@ == self.nb@
        &&& addr.label@ == addr_label(self.nb@, self.street@, self.city@)
        &&& addr.coord == self.position()
        &&& addr.zip_codes@.len() == 1 && addr.zip_codes@[0]@ == self.zip@
        &&& addr.weight == addr.street.weight
        &&& addr.street.id@ == "street:"@ + byte_prefix(self.id@, 10)
        &&& addr.street.street_name@ == self.street@
        &&& addr.street.label@ == street_label(self.street@, self.city@)
        &&& addr.street.coord == self.position()
        &&& addr.street.zip_codes@.len() == 1 && addr.street.zip_codes@[0]@ == self.zip@
        &&& is_resolution(
            admins,
            self.position(),
            Some(self.spec_insee()),
            addr.street.administrative_regions@,
        )
        &&& addr.street.weight == weight_of(
            admins,
            addr.street.administrative_regions@,
            city_level,
        )
    }

    /// The code of the city, without leading zeros.
    pub fn insee(&self) -> (code: &str)
        requires
            cuts_at(self.id@, 5),
        ensures
            code@ == self.spec_insee(),
    {
        match prefix_bytes(self.id.as_str(), 5) {
            Some(head) => strip_leading_zeros(head),
            None => "",
        }
    }

    /// The code of the street: the first ten bytes of the identifier.
    pub fn fantoir(&self) -> (code: &str)
        requires
            cuts_at(self.id@, 10),
        ensures
            code@ == byte_prefix(self.id@, 10),
    {
        match prefix_bytes(self.id.as_str(), 10) {
            Some(head) => head,
            None => "",
        }
    }

    /// Whether the identifier holds the codes of city and street.
    pub fn check_id(&self) -> (r: bool)
        ensures
            r == self.has_codes(),
    {
        prefix_bytes(self.id.as_str(), 5).is_some() && prefix_bytes(self.id.as_str(), 10).is_some()
    }

    /// Builds the address of the record: labels and identifiers from its
    /// fields, the regions from its position reconciled with the code of its
    /// city, the weight from the city among them. A record whose identifier
    /// does not hold the codes gives an error.
    pub fn into_addr(self, admins_geofinder: &AdminGeoFinder, city_level: u32) -> (r: Result<
        Addr,
        BanoError,
    >)
        ensures
            match r {
                Ok(addr) => self.has_codes() && self.gives(addr, admins_geofinder@, city_level),
                Err(e) => !self.has_codes() && e == BanoError::MalformedId,
            },
    {
        if !self.check_id() {
            return Err(BanoError::MalformedId);
        }
        let position = Coord { lon: self.lon, lat: self.lat };

        let mut street_label = self.street.clone();
        street_label.append(" (");
        street_label.append(self.city.as_str());
        street_label.append(")");

        let mut addr_label = self.nb.clone();
        addr_label.append(" ");
        addr_label.append(self.street.as_str());
        addr_label.append(" (");
        addr_label.append(self.city.as_str());
        addr_label.append(")");

        let mut street_id = String::from_str("street:");
        street_id.append(self.fantoir());

        let mut addr_id = String::from_str("addr:");
        push_degrees(&mut addr_id, self.lon);
        addr_id.append(";");
        push_degrees(&mut addr_id, self.lat);

        let admins = resolve(admins_geofinder, &position, Some(self.insee()));
        let weight = weight(admins_geofinder.store(), &admins, city_level);

        let mut street_zip_codes: Vec<String> = Vec::new();
        street_zip_codes.push(self.zip.clone());
        let mut zip_codes: Vec<String> = Vec::new();
        zip_codes.push(self.zip.clone());

        let ghost record = self;
        let street = Street {
            id: street_id,
            street_name: self.street,
            label: street_label,
            administrative_regions: admins,
            weight: weight,
            zip_codes: street_zip_codes,
            coord: position,
        };
        let addr = Addr {
            id: addr_id,
            house_number: self.nb,
            street: street,
            label: addr_label,
            coord: position,
            weight: weight,
            zip_codes: zip_codes,
        };
        assert(record.gives(addr, admins_geofinder@, city_level));
        Ok(addr)
    }
}

/// An identifier of ten ASCII characters or more holds the codes: the code
/// of the city is its first five characters without their leading zeros,
/// the code of the street its first ten characters.
pub proof fn lemma_ascii_id_holds_codes(record: Bano)
    requires
        is_ascii_chars(record.id@),
        record.id@.len() >= 10,
    ensures
        record.has_codes(),
        record.spec_insee() == without_leading_zeros(record.id@.subrange(0, 5)),
        byte_prefix(record.id@, 10) == record.id@.subrange(0, 10),
{
    lemma_byte_prefix_ascii(record.id@, 5);
    lemma_byte_prefix_ascii(record.id@, 10);
}

} // verus!
