//! The wire-shaped records of the source event-management service: opaque
//! integer ids, the raw category / owner / session ("AK") / slot records, and
//! the fixed classification tables that map a session's category and type ids
//! to semantic flags.
//!
//! Slot durations arrive on the wire as decimal strings denoting hours.  They
//! are held here in thousandths of an hour, so that accumulating them is exact
//! integer arithmetic; [`crate::duration::parse_duration`] turns the wire form
//! into that representation and gives the exact grammar it accepts.

use vstd::prelude::*;

verus! {

#[derive(Debug, PartialEq, Eq, Structural, Hash, Copy, Clone, PartialOrd, Ord)]
pub struct EventId(pub u64);

#[derive(Debug, PartialEq, Eq, Structural, Hash, Copy, Clone, PartialOrd, Ord)]
pub struct AKId(pub u64);

#[derive(Debug, PartialEq, Eq, Structural, Hash, Copy, Clone, PartialOrd, Ord)]
pub struct CategoryId(pub u64);

#[derive(Debug, PartialEq, Eq, Structural, Hash, Copy, Clone, PartialOrd, Ord)]
pub struct OwnerId(pub u64);

#[derive(Debug, PartialEq, Eq, Structural, Hash, Copy, Clone, PartialOrd, Ord)]
pub struct TypeId(pub u64);

#[derive(Debug, PartialEq, Eq, Structural, Hash, Copy, Clone, PartialOrd, Ord)]
pub struct RequirementId(pub u64);

#[derive(Debug, PartialEq, Eq, Structural, Hash, Copy, Clone, PartialOrd, Ord)]
pub struct SlotId(pub u64);

#[derive(Debug, PartialEq, Eq, Structural, Hash, Copy, Clone, PartialOrd, Ord)]
pub struct RoomId(pub u64);

/// Thousandths of an hour that one slot-duration unit stands for.
pub const MILLIHOURS_PER_SLOT_UNIT: u64 = 1;

/// The session type marking a session as eligible for wiki publication.
pub const TYPE_KOMA: u64 = 2;

/// The event id of the currently published event.
pub const EVENT_KOMA92: u64 = 16;

pub const CATEGORY_WORK: u64 = 64;
pub const CATEGORY_META: u64 = 65;
pub const CATEGORY_CULTURE: u64 = 66;
pub const CATEGORY_FRAMING: u64 = 67;

/// A raw session record as received from the source, before resolution
/// against its event's categories and owners.
#[derive(Debug)]
pub struct AK {
    pub id: AKId,
    pub name: String,
    pub short_name: String,
    pub description: String,
    pub link: String,
    pub protocol_link: String,
    pub reso: bool,
    pub present: Option<bool>,
    pub notes: String,
    pub interest: i64,
    pub interest_counter: u64,
    pub include_in_export: bool,
    pub category: CategoryId,
    pub track: Option<u64>,
    pub event: EventId,
    pub owners: Vec<OwnerId>,
    pub types: Vec<TypeId>,
    pub requirements: Vec<RequirementId>,
    pub conflicts: Vec<AKId>,
    pub prerequisites: Vec<AKId>,
}

/// The fixed classification tables: which categories count for which
/// semantic role.  The tables may overlap; the flags are independent.
pub open spec fn spec_is_exchange(category: CategoryId) -> bool {
    category.0 == CATEGORY_CULTURE || category.0 == CATEGORY_META
}

pub open spec fn spec_is_input(category: CategoryId) -> bool {
    category.0 == CATEGORY_CULTURE || category.0 == CATEGORY_WORK
}

pub open spec fn spec_is_output(category: CategoryId) -> bool {
    category.0 == CATEGORY_WORK || category.0 == CATEGORY_META
}

pub open spec fn spec_is_talk(category: CategoryId) -> bool {
    category.0 == CATEGORY_FRAMING
}

pub open spec fn spec_is_fun(category: CategoryId) -> bool {
    category.0 == CATEGORY_FRAMING || category.0 == CATEGORY_CULTURE
}

/// Whether some type id in the sequence is the publication-eligible type.
pub open spec fn spec_is_koma(types: Seq<TypeId>) -> bool {
    exists|i: int| 0 <= i < types.len() && types[i].0 == TYPE_KOMA
}

impl AK {
    /// Exchange sessions: culture or meta categories.
    pub fn is_exchange(&self) -> (r: bool)
        ensures
            r == spec_is_exchange(self.category),
    {
        self.category.0 == CATEGORY_CULTURE || self.category.0 == CATEGORY_META
    }

    /// Input sessions: culture or work categories.
    pub fn is_input(&self) -> (r: bool)
        ensures
            r == spec_is_input(self.category),
    {
        self.category.0 == CATEGORY_CULTURE || self.category.0 == CATEGORY_WORK
    }

    /// Output sessions: work or meta categories.
    pub fn is_output(&self) -> (r: bool)
        ensures
            r == spec_is_output(self.category),
    {
        self.category.0 == CATEGORY_WORK || self.category.0 == CATEGORY_META
    }

    /// Resolution sessions carry their own flag on the wire.
    pub fn is_reso(&self) -> (r: bool)
        ensures
            r == self.reso,
    {
        self.reso
    }

    /// Talk sessions: the framing category.
    pub fn is_talk(&self) -> (r: bool)
        ensures
            r == spec_is_talk(self.category),
    {
        self.category.0 == CATEGORY_FRAMING
    }

    /// Fun sessions: framing or culture categories.
    pub fn is_fun(&self) -> (r: bool)
        ensures
            r == spec_is_fun(self.category),
    {
        self.category.0 == CATEGORY_FRAMING || self.category.0 == CATEGORY_CULTURE
    }

    /// Whether the session carries the publication-eligible type id.
    pub fn is_koma(&self) -> (r: bool)
        ensures
            r == spec_is_koma(self.types@),
    {
        let mut i: usize = 0;
        while i < self.types.len()
            invariant
                i <= self.types@.len(),
                forall|j: int| 0 <= j < i ==> self.types@[j].0 != TYPE_KOMA,
            decreases self.types@.len() - i,
        {
            if self.types[i].0 == TYPE_KOMA {
                return true;
            }
            i += 1;
        }
        false
    }
}

/// The collection endpoints of the source API.
pub enum Endpoint {
    AK,
    Category,
    Owner,
}

impl Endpoint {
    /// The path segment naming the endpoint.
    pub open spec fn spec_name(&self) -> Seq<char> {
        match self {
            Endpoint::AK => "ak"@,
            Endpoint::Category => "akcategory"@,
            Endpoint::Owner => "akowner"@,
        }
    }

    pub fn name(&self) -> (r: &'static str)
        ensures
            r@ == self.spec_name(),
    {
        match self {
            Endpoint::AK => "ak",
            Endpoint::Category => "akcategory",
            Endpoint::Owner => "akowner",
        }
    }

    /// The collection's URL under a base IRI.
    pub fn iri(&self, iri: String) -> (r: String)
        ensures
            r@ == iri@ + seq!['/'] + self.spec_name() + seq!['/'],
    {
        let mut r = iri;
        r.append("/");
        r.append(self.name());
        r.append("/");
        proof {
            reveal_strlit("/");
            assert("/"@ =~= seq!['/']);
        }
        r
    }
}

/// A raw category record.
#[derive(Debug)]
pub struct Category {
    pub id: CategoryId,
    pub name: String,
    pub color: String,
    pub description: String,
    pub present_by_default: bool,
    pub event: EventId,
}

/// A raw owner record.
#[derive(Debug)]
pub struct Owner {
    pub id: OwnerId,
    pub name: String,
    pub slug: String,
    pub institution: String,
    pub link: String,
    pub event: EventId,
}

/// A raw scheduling-slot record.  `duration` is in thousandths of an hour.
#[derive(Debug)]
pub struct Slot {
    pub id: SlotId,
    pub start: Option<String>,
    pub duration: u64,
    pub fixed: bool,
    pub updated: String,
    pub ak: AKId,
    pub room: Option<RoomId>,
    pub event: EventId,
}

} // verus!
