//! Vehicle classes of the transit network.

use vstd::prelude::*;

use crate::text::chars_of;

verus! {

/// The transit mode of a route.
#[derive(Debug, PartialEq, Eq, Structural, Clone, Copy)]
pub enum Vehicle {
    Bus,
    Tram,
    Trolley,
}

/// A mode token that names no known vehicle class.
#[derive(Debug, PartialEq, Eq, Structural, Clone, Copy)]
pub struct ParseVehicleErr;

/// The vehicle class that a mode token names, if any.
pub open spec fn vehicle_of_token(t: Seq<char>) -> Option<Vehicle> {
    if t == seq!['b', 'u', 's'] {
        Some(Vehicle::Bus)
    } else if t == seq!['t', 'r', 'a', 'm'] {
        Some(Vehicle::Tram)
    } else if t == seq!['t', 'r', 'o', 'l', 'l', 'e', 'y'] {
        Some(Vehicle::Trolley)
    } else {
        None
    }
}

/// Whether the characters of `s` are exactly `lit`.
pub fn chars_equal(s: &Vec<char>, lit: &Vec<char>) -> (r: bool)
    ensures
        r == (s@ == lit@),
{
    if s.len() != lit.len() {
        return false;
    }
    let mut i: usize = 0;
    while i < s.len()
        invariant
            s@.len() == lit@.len(),
            i <= s@.len(),
            forall|j: int| 0 <= j < i ==> s@[j] == lit@[j],
        decreases s@.len() - i,
    {
        if s[i] != lit[i] {
            return false;
        }
        i = i + 1;
    }
    assert(s@ =~= lit@);
    true
}

impl Vehicle {
    /// Classifies a mode token: `bus`, `tram` or `trolley`.
    pub fn from_chars(t: &Vec<char>) -> (r: Result<Vehicle, ParseVehicleErr>)
        ensures
            r == (match vehicle_of_token(t@) {
                Some(v) => Ok(v),
                None => Err(ParseVehicleErr),
            }),
    {
        let bus: Vec<char> = vec!['b', 'u', 's'];
        let tram: Vec<char> = vec!['t', 'r', 'a', 'm'];
        let trolley: Vec<char> = vec!['t', 'r', 'o', 'l', 'l', 'e', 'y'];
        if chars_equal(t, &bus) {
            Ok(Vehicle::Bus)
        } else if chars_equal(t, &tram) {
            Ok(Vehicle::Tram)
        } else if chars_equal(t, &trolley) {
            Ok(Vehicle::Trolley)
        } else {
            Err(ParseVehicleErr)
        }
    }
}

impl Vehicle {
    /// Classifies a mode token: `bus`, `tram` or `trolley`.
    pub fn parse(t: &str) -> (r: Result<Vehicle, ParseVehicleErr>)
        ensures
            r == (match vehicle_of_token(t@) {
                Some(v) => Ok(v),
                None => Err(ParseVehicleErr),
            }),
    {
        Vehicle::from_chars(&chars_of(t))
    }

    /// How the class is shown to a rider.
    pub fn label(&self) -> (r: String)
        ensures
            r@ == vehicle_label(*self),
    {
        match self {
            Vehicle::Tram => String::from_str("Трамвай 🚋"),
            Vehicle::Trolley => String::from_str("Троллейбус 🚎"),
            Vehicle::Bus => String::from_str("Автобус 🚌"),
        }
    }
}

/// How a vehicle class is shown to a rider.
pub open spec fn vehicle_label(v: Vehicle) -> Seq<char> {
    match v {
        Vehicle::Tram => "Трамвай 🚋"@,
        Vehicle::Trolley => "Троллейбус 🚎"@,
        Vehicle::Bus => "Автобус 🚌"@,
    }
}

impl std::str::FromStr for Vehicle {
    type Err = ParseVehicleErr;

    fn from_str(s: &str) -> Result<Vehicle, ParseVehicleErr> {
        Vehicle::parse(s)
    }
}

} // verus!
