//! The identity of a place: a city together with its country.

use vstd::prelude::*;

verus! {

/// What a [`Location`] stands for in contracts: the characters of its city and
/// of its country.
pub type LocationKey = (Seq<char>, Seq<char>);

/// A place on the map. Two locations are the same place exactly when both
/// their city and their country agree, letter for letter.
#[derive(Debug, Hash)]
pub struct Location {
    pub city: String,
    pub country: String,
}

impl View for Location {
    type V = LocationKey;

    open spec fn view(&self) -> LocationKey {
        (self.city@, self.country@)
    }
}

impl Location {
    /// A location from borrowed text.
    pub fn new(city: &str, country: &str) -> (loc: Location)
        ensures
            loc@ == (city@, country@),
    {
        Location { city: String::from_str(city), country: String::from_str(country) }
    }

    /// The location as it is shown to a reader: the city, then the country in
    /// round brackets.
    pub fn label(&self) -> (text: String)
        ensures
            text@ == self.city@ + " ("@ + self.country@ + ")"@,
    {
        let mut text = self.city.clone();
        text.append(" (");
        text.append(self.country.as_str());
        text.append(")");
        text
    }
}

impl Clone for Location {
    fn clone(&self) -> (copy: Location)
        ensures
            copy@ == self@,
    {
        Location { city: self.city.clone(), country: self.country.clone() }
    }
}

impl PartialEq for Location {
    fn eq(&self, other: &Location) -> (same: bool) {
        self.city == other.city && self.country == other.country
    }
}

impl Eq for Location {

}

impl vstd::std_specs::cmp::PartialEqSpecImpl for Location {
    open spec fn obeys_eq_spec() -> bool {
        true
    }

    open spec fn eq_spec(&self, other: &Location) -> bool {
        self.city@ == other.city@ && self.country@ == other.country@
    }
}

} // verus!
