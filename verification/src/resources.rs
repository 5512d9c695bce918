//! The resource kinds the explorer reasons about.
use vstd::prelude::*;

verus! {

/// A basic resource kind, generated directly by a planet.
#[derive(Clone, Copy, Debug, PartialEq, Eq, Structural, Hash)]
pub enum BasicKind {
    Oxygen,
    Hydrogen,
    Carbon,
    Silicon,
}

/// A complex resource kind, crafted by combining two resources.
#[derive(Clone, Copy, Debug, PartialEq, Eq, Structural, Hash)]
pub enum ComplexKind {
    Water,
    Diamond,
    Life,
    Dolphin,
    Robot,
    AIPartner,
}

/// Any resource kind, split by how it is obtained.
#[derive(Clone, Copy, Debug, PartialEq, Eq, Structural, Hash)]
pub enum ResourceKind {
    Basic(BasicKind),
    Complex(ComplexKind),
}

/// A flat enumeration of every resource the explorer can look for.
#[derive(Clone, Copy, Debug, PartialEq, Eq, Structural, Hash)]
pub enum AnyResource {
    Oxygen,
    Hydrogen,
    Carbon,
    Silicon,
    Water,
    Life,
    Dolphin,
    Robot,
    Diamond,
    AiPartner,
}

/// Number of distinct resources; weight tables hold one slot per resource.
pub const RESOURCE_COUNT: usize = 10;

pub open spec fn basic_to_any(b: BasicKind) -> AnyResource {
    match b {
        BasicKind::Oxygen => AnyResource::Oxygen,
        BasicKind::Hydrogen => AnyResource::Hydrogen,
        BasicKind::Carbon => AnyResource::Carbon,
        BasicKind::Silicon => AnyResource::Silicon,
    }
}

pub open spec fn complex_to_any(c: ComplexKind) -> AnyResource {
    match c {
        ComplexKind::Water => AnyResource::Water,
        ComplexKind::Life => AnyResource::Life,
        ComplexKind::Dolphin => AnyResource::Dolphin,
        ComplexKind::Robot => AnyResource::Robot,
        ComplexKind::Diamond => AnyResource::Diamond,
        ComplexKind::AIPartner => AnyResource::AiPartner,
    }
}

pub open spec fn any_to_kind(a: AnyResource) -> ResourceKind {
    match a {
        AnyResource::Oxygen => ResourceKind::Basic(BasicKind::Oxygen),
        AnyResource::Hydrogen => ResourceKind::Basic(BasicKind::Hydrogen),
        AnyResource::Carbon => ResourceKind::Basic(BasicKind::Carbon),
        AnyResource::Silicon => ResourceKind::Basic(BasicKind::Silicon),
        AnyResource::Water => ResourceKind::Complex(ComplexKind::Water),
        AnyResource::Life => ResourceKind::Complex(ComplexKind::Life),
        AnyResource::Dolphin => ResourceKind::Complex(ComplexKind::Dolphin),
        AnyResource::Robot => ResourceKind::Complex(ComplexKind::Robot),
        AnyResource::Diamond => ResourceKind::Complex(ComplexKind::Diamond),
        AnyResource::AiPartner => ResourceKind::Complex(ComplexKind::AIPartner),
    }
}

pub open spec fn kind_to_any(k: ResourceKind) -> AnyResource {
    match k {
        ResourceKind::Basic(b) => basic_to_any(b),
        ResourceKind::Complex(c) => complex_to_any(c),
    }
}

impl AnyResource {
    /// The slot of this resource in a weight table.
    pub open spec fn slot(self) -> int {
        match self {
            AnyResource::Oxygen => 0,
            AnyResource::Hydrogen => 1,
            AnyResource::Carbon => 2,
            AnyResource::Silicon => 3,
            AnyResource::Water => 4,
            AnyResource::Life => 5,
            AnyResource::Dolphin => 6,
            AnyResource::Robot => 7,
            AnyResource::Diamond => 8,
            AnyResource::AiPartner => 9,
        }
    }

    /// The resource stored in a given slot of a weight table.
    pub open spec fn of_slot(i: int) -> AnyResource {
        if i == 0 { AnyResource::Oxygen }
        else if i == 1 { AnyResource::Hydrogen }
        else if i == 2 { AnyResource::Carbon }
        else if i == 3 { AnyResource::Silicon }
        else if i == 4 { AnyResource::Water }
        else if i == 5 { AnyResource::Life }
        else if i == 6 { AnyResource::Dolphin }
        else if i == 7 { AnyResource::Robot }
        else if i == 8 { AnyResource::Diamond }
        else { AnyResource::AiPartner }
    }

    pub fn index(&self) -> (i: usize)
        ensures
            i as int == self.slot(),
            i < RESOURCE_COUNT,
    {
        match self {
            AnyResource::Oxygen => 0,
            AnyResource::Hydrogen => 1,
            AnyResource::Carbon => 2,
            AnyResource::Silicon => 3,
            AnyResource::Water => 4,
            AnyResource::Life => 5,
            AnyResource::Dolphin => 6,
            AnyResource::Robot => 7,
            AnyResource::Diamond => 8,
            AnyResource::AiPartner => 9,
        }
    }

    pub fn from_index(i: usize) -> (r: AnyResource)
        requires
            i < RESOURCE_COUNT,
        ensures
            r == AnyResource::of_slot(i as int),
            r.slot() == i as int,
    {
        if i == 0 { AnyResource::Oxygen }
        else if i == 1 { AnyResource::Hydrogen }
        else if i == 2 { AnyResource::Carbon }
        else if i == 3 { AnyResource::Silicon }
        else if i == 4 { AnyResource::Water }
        else if i == 5 { AnyResource::Life }
        else if i == 6 { AnyResource::Dolphin }
        else if i == 7 { AnyResource::Robot }
        else if i == 8 { AnyResource::Diamond }
        else { AnyResource::AiPartner }
    }
}

impl From<BasicKind> for AnyResource {
    fn from(resource_type: BasicKind) -> (r: AnyResource) {
        match resource_type {
            BasicKind::Oxygen => AnyResource::Oxygen,
            BasicKind::Hydrogen => AnyResource::Hydrogen,
            BasicKind::Carbon => AnyResource::Carbon,
            BasicKind::Silicon => AnyResource::Silicon,
        }
    }
}

impl vstd::std_specs::convert::FromSpecImpl<BasicKind> for AnyResource {
    open spec fn obeys_from_spec() -> bool {
        true
    }

    open spec fn from_spec(v: BasicKind) -> AnyResource {
        basic_to_any(v)
    }
}

impl From<ComplexKind> for AnyResource {
    fn from(resource_type: ComplexKind) -> (r: AnyResource) {
        match resource_type {
            ComplexKind::Water => AnyResource::Water,
            ComplexKind::Life => AnyResource::Life,
            ComplexKind::Dolphin => AnyResource::Dolphin,
            ComplexKind::Robot => AnyResource::Robot,
            ComplexKind::Diamond => AnyResource::Diamond,
            ComplexKind::AIPartner => AnyResource::AiPartner,
        }
    }
}

impl vstd::std_specs::convert::FromSpecImpl<ComplexKind> for AnyResource {
    open spec fn obeys_from_spec() -> bool {
        true
    }

    open spec fn from_spec(v: ComplexKind) -> AnyResource {
        complex_to_any(v)
    }
}

impl From<AnyResource> for ResourceKind {
    fn from(resource: AnyResource) -> (k: ResourceKind) {
        match resource {
            AnyResource::Oxygen => ResourceKind::Basic(BasicKind::Oxygen),
            AnyResource::Hydrogen => ResourceKind::Basic(BasicKind::Hydrogen),
            AnyResource::Carbon => ResourceKind::Basic(BasicKind::Carbon),
            AnyResource::Silicon => ResourceKind::Basic(BasicKind::Silicon),
            AnyResource::Water => ResourceKind::Complex(ComplexKind::Water),
            AnyResource::Life => ResourceKind::Complex(ComplexKind::Life),
            AnyResource::Dolphin => ResourceKind::Complex(ComplexKind::Dolphin),
            AnyResource::Robot => ResourceKind::Complex(ComplexKind::Robot),
            AnyResource::Diamond => ResourceKind::Complex(ComplexKind::Diamond),
            AnyResource::AiPartner => ResourceKind::Complex(ComplexKind::AIPartner),
        }
    }
}

impl vstd::std_specs::convert::FromSpecImpl<AnyResource> for ResourceKind {
    open spec fn obeys_from_spec() -> bool {
        true
    }

    open spec fn from_spec(v: AnyResource) -> ResourceKind {
        any_to_kind(v)
    }
}

impl ResourceKind {
    /// The flat resource of this kind.
    pub fn to_any(&self) -> (r: AnyResource)
        ensures
            r == kind_to_any(*self),
    {
        match self {
            ResourceKind::Basic(b) => AnyResource::from(*b),
            ResourceKind::Complex(c) => AnyResource::from(*c),
        }
    }
}

/// Turning a kind into a flat resource and back gives the kind again, and
/// every flat resource is the image of exactly the kind it converts to.
pub proof fn lemma_kind_roundtrip(k: ResourceKind, a: AnyResource)
    ensures
        any_to_kind(kind_to_any(k)) == k,
        kind_to_any(any_to_kind(a)) == a,
        any_to_kind(basic_to_any(k->Basic_0)) == ResourceKind::Basic(k->Basic_0),
        any_to_kind(complex_to_any(k->Complex_0)) == ResourceKind::Complex(k->Complex_0),
{
}

/// Distinct resources occupy distinct weight-table slots, all below
/// `RESOURCE_COUNT`.
pub proof fn lemma_slots_distinct(a: AnyResource, b: AnyResource)
    ensures
        0 <= a.slot() < RESOURCE_COUNT,
        a.slot() == b.slot() <==> a == b,
        AnyResource::of_slot(a.slot()) == a,
{
}

} // verus!
