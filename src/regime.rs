use core::cmp::Ordering;
use vstd::prelude::*;
use vstd::std_specs::cmp::PartialOrdSpec;

verus! {

/// Category of a country, from least to most democratic.
#[derive(Debug, Clone, Copy, PartialEq, Eq, Structural, Hash, Ord)]
pub enum RegimeType {
    /// Political pluralism is nonexistent or severely limited
    Authoritarian,
    /// Regular electoral fraud, preventing fair and free elections
    HybridRegime,
    /// Fair and free elections and basic civil liberties, with some issues
    FlawedDemocracy,
    /// Civil liberties and political freedoms respected and reinforced
    FullDemocracy,
}

/// Position of a regime type on the scale, least democratic first.
pub open spec fn rank(r: RegimeType) -> int {
    match r {
        RegimeType::Authoritarian => 0,
        RegimeType::HybridRegime => 1,
        RegimeType::FlawedDemocracy => 2,
        RegimeType::FullDemocracy => 3,
    }
}

/// The label that the table writes for a regime type.
pub open spec fn label(r: RegimeType) -> Seq<char> {
    match r {
        RegimeType::Authoritarian => "Authoritarian regime"@,
        RegimeType::HybridRegime => "Hybrid regime"@,
        RegimeType::FlawedDemocracy => "Flawed democracy"@,
        RegimeType::FullDemocracy => "Full democracy"@,
    }
}

/// The regime type whose label is exactly `s`, if any.
pub open spec fn regime_of_label(s: Seq<char>) -> Option<RegimeType> {
    if s == label(RegimeType::FullDemocracy) {
        Some(RegimeType::FullDemocracy)
    } else if s == label(RegimeType::FlawedDemocracy) {
        Some(RegimeType::FlawedDemocracy)
    } else if s == label(RegimeType::HybridRegime) {
        Some(RegimeType::HybridRegime)
    } else if s == label(RegimeType::Authoritarian) {
        Some(RegimeType::Authoritarian)
    } else {
        None
    }
}

pub open spec fn compare_ranks(a: int, b: int) -> Ordering {
    if a < b {
        Ordering::Less
    } else if a == b {
        Ordering::Equal
    } else {
        Ordering::Greater
    }
}

impl RegimeType {
    /// The label of this regime type, as the table writes it.
    pub fn as_str(&self) -> (r: &'static str)
        ensures
            r@ == label(*self),
    {
        match self {
            RegimeType::Authoritarian => "Authoritarian regime",
            RegimeType::HybridRegime => "Hybrid regime",
            RegimeType::FlawedDemocracy => "Flawed democracy",
            RegimeType::FullDemocracy => "Full democracy",
        }
    }

    /// Position on the scale: 0 for `Authoritarian` up to 3 for `FullDemocracy`.
    pub fn rank(&self) -> (r: u8)
        ensures
            r as int == rank(*self),
    {
        match self {
            RegimeType::Authoritarian => 0,
            RegimeType::HybridRegime => 1,
            RegimeType::FlawedDemocracy => 2,
            RegimeType::FullDemocracy => 3,
        }
    }
}

impl PartialOrd for RegimeType {
    fn partial_cmp(&self, other: &RegimeType) -> (r: Option<Ordering>)
        ensures
            r == Some(compare_ranks(rank(*self), rank(*other))),
    {
        let a = self.rank();
        let b = other.rank();
        if a < b {
            Some(Ordering::Less)
        } else if a == b {
            Some(Ordering::Equal)
        } else {
            Some(Ordering::Greater)
        }
    }
}

impl vstd::std_specs::cmp::PartialOrdSpecImpl for RegimeType {
    open spec fn obeys_partial_cmp_spec() -> bool {
        true
    }

    open spec fn partial_cmp_spec(&self, other: &RegimeType) -> Option<Ordering> {
        Some(compare_ranks(rank(*self), rank(*other)))
    }
}

/// The order of regime types is total and fixed:
/// `Authoritarian < HybridRegime < FlawedDemocracy < FullDemocracy`, and two
/// regime types compare equal only when they are the same variant.
pub proof fn lemma_regime_order(a: RegimeType, b: RegimeType)
    ensures
        rank(RegimeType::Authoritarian) < rank(RegimeType::HybridRegime),
        rank(RegimeType::HybridRegime) < rank(RegimeType::FlawedDemocracy),
        rank(RegimeType::FlawedDemocracy) < rank(RegimeType::FullDemocracy),
        a.partial_cmp_spec(&b) is Some,
        a.partial_cmp_spec(&b) == Some(Ordering::Equal) <==> a == b,
        a.partial_cmp_spec(&b) == Some(Ordering::Less) <==> b.partial_cmp_spec(&a) == Some(
            Ordering::Greater,
        ),
        a.partial_cmp_spec(&b) == Some(Ordering::Less) <==> rank(a) < rank(b),
{
}

} // verus!
