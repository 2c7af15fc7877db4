use vstd::prelude::*;

pub mod character;
pub mod material;

use crate::strings::{dec_str, eq_ignore_ascii_case, str_eq_ignore_ascii_case, u64_to_dec};

verus! {

/// A star rating between one and five.
#[derive(Debug, Clone, Copy, PartialEq, Eq, Structural)]
pub struct Quality(u8);

impl Quality {
    pub closed spec fn spec_value(self) -> u8 {
        self.0
    }

    /// A rating; one to five stars.
    pub fn new(value: u8) -> (r: Quality)
        requires
            1 <= value <= 5,
        ensures
            r.spec_value() == value,
    {
        Quality(value)
    }

    pub fn value(&self) -> (r: u8)
        ensures
            r == self.spec_value(),
    {
        self.0
    }

    pub open spec fn spec_label(self) -> Seq<char> {
        if self.spec_value() > 1 {
            dec_str(self.spec_value() as nat) + " Stars"@
        } else {
            dec_str(self.spec_value() as nat) + " Star"@
        }
    }

    /// The rating written out: `1 Star`, `4 Stars`.
    pub fn label(&self) -> (r: String)
        ensures
            r@ == self.spec_label(),
    {
        let mut r = u64_to_dec(self.0 as u64);
        if self.0 > 1 {
            r.append(" Stars");
            proof {
                assert(r@ =~= self.spec_label());
            }
        } else {
            r.append(" Star");
            proof {
                assert(r@ =~= self.spec_label());
            }
        }
        r
    }
}

/// The seven elements.
#[derive(Debug, Clone, Copy, PartialEq, Eq, Structural)]
pub enum Element {
    Pyro,
    Hydro,
    Cryo,
    Electro,
    Anemo,
    Geo,
    Dendro,
}

impl Element {
    /// Which element a name denotes, ignoring ASCII case.
    pub open spec fn spec_parse(v: Seq<char>) -> Option<Element> {
        if eq_ignore_ascii_case(v, "pyro"@) {
            Some(Element::Pyro)
        } else if eq_ignore_ascii_case(v, "hydro"@) {
            Some(Element::Hydro)
        } else if eq_ignore_ascii_case(v, "cryo"@) {
            Some(Element::Cryo)
        } else if eq_ignore_ascii_case(v, "electro"@) {
            Some(Element::Electro)
        } else if eq_ignore_ascii_case(v, "anemo"@) {
            Some(Element::Anemo)
        } else if eq_ignore_ascii_case(v, "geo"@) {
            Some(Element::Geo)
        } else if eq_ignore_ascii_case(v, "dendro"@) {
            Some(Element::Dendro)
        } else {
            None
        }
    }

    /// Reads an element name; an unknown name is reported back.
    pub fn parse(value: &str) -> (r: Result<Element, String>)
        ensures
            match r {
                Ok(e) => Element::spec_parse(value@) == Some(e),
                Err(m) => Element::spec_parse(value@) is None && m@ == "unknown element: "@
                    + value@,
            },
    {
        if str_eq_ignore_ascii_case(value, "pyro") {
            return Ok(Element::Pyro);
        }
        if str_eq_ignore_ascii_case(value, "hydro") {
            return Ok(Element::Hydro);
        }
        if str_eq_ignore_ascii_case(value, "cryo") {
            return Ok(Element::Cryo);
        }
        if str_eq_ignore_ascii_case(value, "electro") {
            return Ok(Element::Electro);
        }
        if str_eq_ignore_ascii_case(value, "anemo") {
            return Ok(Element::Anemo);
        }
        if str_eq_ignore_ascii_case(value, "geo") {
            return Ok(Element::Geo);
        }
        if str_eq_ignore_ascii_case(value, "dendro") {
            return Ok(Element::Dendro);
        }
        let mut m = String::from_str("unknown element: ");
        m.append(value);
        Err(m)
    }

    pub open spec fn spec_name(self) -> Seq<char> {
        match self {
            Element::Pyro => "Pyro"@,
            Element::Hydro => "Hydro"@,
            Element::Cryo => "Cryo"@,
            Element::Electro => "Electro"@,
            Element::Anemo => "Anemo"@,
            Element::Geo => "Geo"@,
            Element::Dendro => "Dendro"@,
        }
    }

    /// The element's display name.
    pub fn name(&self) -> (r: String)
        ensures
            r@ == self.spec_name(),
    {
        match self {
            Element::Pyro => String::from_str("Pyro"),
            Element::Hydro => String::from_str("Hydro"),
            Element::Cryo => String::from_str("Cryo"),
            Element::Electro => String::from_str("Electro"),
            Element::Anemo => String::from_str("Anemo"),
            Element::Geo => String::from_str("Geo"),
            Element::Dendro => String::from_str("Dendro"),
        }
    }
}

} // verus!
