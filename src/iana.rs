//! Record types and classes: named 16-bit codes, with an escape for the
//! codes that have no name here.

use vstd::prelude::*;

verus! {

/// The type of a resource record.
#[derive(Clone, Copy, Debug, PartialEq, Eq, Structural)]
pub enum Rtype {
    A,
    Ns,
    Cname,
    Soa,
    Mx,
    Txt,
    Aaaa,
    Opt,
    /// A type without a name here, by its code.
    Int(u16),
}

impl Rtype {
    pub open spec fn spec_to_int(self) -> u16 {
        match self {
            Rtype::A => 1,
            Rtype::Ns => 2,
            Rtype::Cname => 5,
            Rtype::Soa => 6,
            Rtype::Mx => 15,
            Rtype::Txt => 16,
            Rtype::Aaaa => 28,
            Rtype::Opt => 41,
            Rtype::Int(v) => v,
        }
    }

    pub open spec fn spec_from_int(v: u16) -> Rtype {
        if v == 1 {
            Rtype::A
        } else if v == 2 {
            Rtype::Ns
        } else if v == 5 {
            Rtype::Cname
        } else if v == 6 {
            Rtype::Soa
        } else if v == 15 {
            Rtype::Mx
        } else if v == 16 {
            Rtype::Txt
        } else if v == 28 {
            Rtype::Aaaa
        } else if v == 41 {
            Rtype::Opt
        } else {
            Rtype::Int(v)
        }
    }

    /// Whether this is the one value for its code: a named code is never
    /// held by the escape.
    pub open spec fn canonical(self) -> bool {
        Rtype::spec_from_int(self.spec_to_int()) == self
    }

    /// The code of the type.
    pub fn to_int(self) -> (r: u16)
        ensures
            r == self.spec_to_int(),
    {
        match self {
            Rtype::A => 1,
            Rtype::Ns => 2,
            Rtype::Cname => 5,
            Rtype::Soa => 6,
            Rtype::Mx => 15,
            Rtype::Txt => 16,
            Rtype::Aaaa => 28,
            Rtype::Opt => 41,
            Rtype::Int(v) => v,
        }
    }

    /// The type with code `v`.
    pub fn from_int(v: u16) -> (r: Rtype)
        ensures
            r == Rtype::spec_from_int(v),
            r.canonical(),
            r.spec_to_int() == v,
    {
        if v == 1 {
            Rtype::A
        } else if v == 2 {
            Rtype::Ns
        } else if v == 5 {
            Rtype::Cname
        } else if v == 6 {
            Rtype::Soa
        } else if v == 15 {
            Rtype::Mx
        } else if v == 16 {
            Rtype::Txt
        } else if v == 28 {
            Rtype::Aaaa
        } else if v == 41 {
            Rtype::Opt
        } else {
            Rtype::Int(v)
        }
    }
}

/// The class of a resource record.
#[derive(Clone, Copy, Debug, PartialEq, Eq, Structural)]
pub enum Class {
    In,
    Ch,
    Hs,
    Any,
    /// A class without a name here, by its code.
    Int(u16),
}

impl Class {
    pub open spec fn spec_to_int(self) -> u16 {
        match self {
            Class::In => 1,
            Class::Ch => 3,
            Class::Hs => 4,
            Class::Any => 255,
            Class::Int(v) => v,
        }
    }

    pub open spec fn spec_from_int(v: u16) -> Class {
        if v == 1 {
            Class::In
        } else if v == 3 {
            Class::Ch
        } else if v == 4 {
            Class::Hs
        } else if v == 255 {
            Class::Any
        } else {
            Class::Int(v)
        }
    }

    /// Whether this is the one value for its code.
    pub open spec fn canonical(self) -> bool {
        Class::spec_from_int(self.spec_to_int()) == self
    }

    /// The code of the class.
    pub fn to_int(self) -> (r: u16)
        ensures
            r == self.spec_to_int(),
    {
        match self {
            Class::In => 1,
            Class::Ch => 3,
            Class::Hs => 4,
            Class::Any => 255,
            Class::Int(v) => v,
        }
    }

    /// The class with code `v`.
    pub fn from_int(v: u16) -> (r: Class)
        ensures
            r == Class::spec_from_int(v),
            r.canonical(),
            r.spec_to_int() == v,
    {
        if v == 1 {
            Class::In
        } else if v == 3 {
            Class::Ch
        } else if v == 4 {
            Class::Hs
        } else if v == 255 {
            Class::Any
        } else {
            Class::Int(v)
        }
    }
}

} // verus!
