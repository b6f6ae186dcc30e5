//! The geolocation attributes carried by one address range.
//!
//! A [`Location`] is what a lookup returns: a materialized copy of the
//! attributes of the matched range, with no reference back to the store.
//! The three coordinate fields hold decimal text rather than machine floats;
//! ingestion guarantees they hold a well-formed decimal numeral, `"0"` when
//! the input field was not one.  `connection_type` is `None` when the input
//! field was absent (empty), which is distinct from any present text.

use vstd::prelude::*;

verus! {

/// One range's geolocation attributes, and the value a lookup returns.
#[derive(Debug)]
pub struct Location {
    pub country: String,
    pub stateprov: String,
    pub district: String,
    pub city: String,
    pub zipcode: String,
    /// Decimal text; `"0"` when the input field was not a decimal numeral.
    pub latitude: String,
    /// Decimal text; `"0"` when the input field was not a decimal numeral.
    pub longitude: String,
    /// `0` when the input field was not an integer in range.
    pub geoname_id: i64,
    /// Decimal text; `"0"` when the input field was not a decimal numeral.
    pub timezone_offset: String,
    pub timezone_name: String,
    pub isp_name: String,
    /// `None` when the input field was absent; never the empty string.
    pub connection_type: Option<String>,
    pub organization_name: String,
}

/// The mathematical content of a [`Location`]: each text field as its
/// character sequence.
#[verifier::ext_equal]
pub struct LocationModel {
    pub country: Seq<char>,
    pub stateprov: Seq<char>,
    pub district: Seq<char>,
    pub city: Seq<char>,
    pub zipcode: Seq<char>,
    pub latitude: Seq<char>,
    pub longitude: Seq<char>,
    pub geoname_id: int,
    pub timezone_offset: Seq<char>,
    pub timezone_name: Seq<char>,
    pub isp_name: Seq<char>,
    pub connection_type: Option<Seq<char>>,
    pub organization_name: Seq<char>,
}

impl View for Location {
    type V = LocationModel;

    open spec fn view(&self) -> LocationModel {
        LocationModel {
            country: self.country@,
            stateprov: self.stateprov@,
            district: self.district@,
            city: self.city@,
            zipcode: self.zipcode@,
            latitude: self.latitude@,
            longitude: self.longitude@,
            geoname_id: self.geoname_id as int,
            timezone_offset: self.timezone_offset@,
            timezone_name: self.timezone_name@,
            isp_name: self.isp_name@,
            connection_type: match self.connection_type {
                Some(ref s) => Some(s@),
                None => None,
            },
            organization_name: self.organization_name@,
        }
    }
}

impl Location {
    /// A materialized copy, equal to `self` in every field.
    pub fn duplicate(&self) -> (r: Location)
        ensures
            r == *self,
    {
        Location {
            country: self.country.clone(),
            stateprov: self.stateprov.clone(),
            district: self.district.clone(),
            city: self.city.clone(),
            zipcode: self.zipcode.clone(),
            latitude: self.latitude.clone(),
            longitude: self.longitude.clone(),
            geoname_id: self.geoname_id,
            timezone_offset: self.timezone_offset.clone(),
            timezone_name: self.timezone_name.clone(),
            isp_name: self.isp_name.clone(),
            connection_type: match &self.connection_type {
                Some(s) => Some(s.clone()),
                None => None,
            },
            organization_name: self.organization_name.clone(),
        }
    }
}

} // verus!
