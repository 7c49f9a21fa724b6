//! The price source's query surface, modelled as plain values: what the
//! two GraphQL queries return, and the normalization of the current-price
//! node. The HTTP transport and the query strings are the caller's
//! business; this module owns every decision made on the response.
use vstd::prelude::*;

use crate::dto::Decimal;

verus! {

/// What the account query returns: the account's login name and its homes
/// (each one an identifier, or absent).
pub struct Viewer {
    pub login: Option<String>,
    pub homes: Vec<Option<String>>,
}

/// Upstream price level classification, based on a trailing price average.
/// Unlike the bus-level enumeration it carries free-text labels for levels
/// this system does not know (`Other`); `NoneLevel` stands for missing
/// data and has the upstream tag `None`.
#[derive(PartialEq, Debug, Clone)]
pub enum PriceLevel {
    VeryCheap,
    Cheap,
    Normal,
    Expensive,
    VeryExpensive,
    Other(String),
    NoneLevel,
}

/// The current-price node of the price query, field by field as the source
/// may or may not populate them.
#[derive(PartialEq, Debug, Clone)]
pub struct CurrentPrice {
    /// The total price including tax, in hundredths of the currency unit.
    pub total: Option<Decimal>,
    /// Spot price part, in hundredths.
    pub energy: Option<Decimal>,
    /// Tax part, in hundredths.
    pub tax: Option<Decimal>,
    /// Start of the hour this price belongs to, RFC 3339.
    pub starts_at: Option<String>,
    /// Currency code.
    pub currency: String,
    /// Level classification.
    pub level: Option<PriceLevel>,
}

impl CurrentPrice {
    /// Every present amount is representable.
    pub open spec fn wf(self) -> bool {
        &&& (self.total matches Some(d) ==> d.wf())
        &&& (self.energy matches Some(d) ==> d.wf())
        &&& (self.tax matches Some(d) ==> d.wf())
    }
}

/// What the price query returns around the current-price node.
pub struct Price {
    pub current_subscription: Option<Subscription>,
}

/// The subscription of the single home.
pub struct Subscription {
    pub price_info: Option<PriceInfoNode>,
}

/// The price information of a subscription.
pub struct PriceInfoNode {
    pub current: Option<CurrentPrice>,
}

/// Price information for the current hour, after normalization.
#[derive(PartialEq, Debug, Clone)]
pub struct PriceInfo {
    /// The total price (including tax), in hundredths.
    pub total: Decimal,
    /// Spot price part, in hundredths.
    pub energy: Decimal,
    /// Tax part, in hundredths.
    pub tax: Decimal,
    /// The start time of the price, RFC 3339, validated.
    pub starts_at: String,
    /// The cost currency.
    pub currency: String,
    /// The price level compared to recent price values.
    pub level: PriceLevel,
}

/// Whether a string is a well-formed RFC 3339 date-time.
pub uninterp spec fn rfc3339_valid(s: Seq<char>) -> bool;

/// Relies on chrono's `DateTime::parse_from_rfc3339`: whether the string
/// parses as an RFC 3339 date-time; depends on the characters alone.
#[verifier::external_body]
fn parse_rfc3339_ok(s: &str) -> (r: bool)
    ensures
        r == rfc3339_valid(s@),
{
    chrono::DateTime::parse_from_rfc3339(s).is_ok()
}

/// The energy and tax parts a current-price node yields: present values
/// are kept, a missing one is the total minus the other, both missing
/// fall back to the total with no tax.
pub open spec fn spec_energy_tax(total: Decimal, energy: Option<Decimal>, tax: Option<Decimal>) -> (
    Decimal,
    Decimal,
) {
    match (energy, tax) {
        (Some(e), Some(t)) => (e, t),
        (Some(e), Option::None) => (e, Decimal { hundredths: (total.hundredths - e.hundredths) as i64 }),
        (Option::None, Some(t)) => (Decimal { hundredths: (total.hundredths - t.hundredths) as i64 }, t),
        (Option::None, Option::None) => (total, Decimal { hundredths: 0 }),
    }
}

/// The level a current-price node yields: absent data maps to the
/// missing-data level, unknown labels as well.
pub open spec fn spec_level_of(level: Option<PriceLevel>) -> PriceLevel {
    match level {
        Some(l) => l,
        Option::None => PriceLevel::NoneLevel,
    }
}

/// What `PriceInfo::new` yields: a normalized record when the total and a
/// valid start time are present, nothing otherwise.
pub open spec fn spec_price_info(pinfo: CurrentPrice) -> Option<PriceInfo> {
    match pinfo.total {
        Option::None => Option::None,
        Some(total) => match pinfo.starts_at {
            Option::None => Option::None,
            Some(starts_at) => if rfc3339_valid(starts_at@) {
                Some(
                    PriceInfo {
                        total,
                        energy: spec_energy_tax(total, pinfo.energy, pinfo.tax).0,
                        tax: spec_energy_tax(total, pinfo.energy, pinfo.tax).1,
                        starts_at,
                        currency: pinfo.currency,
                        level: spec_level_of(pinfo.level),
                    },
                )
            } else {
                Option::None
            },
        },
    }
}

impl PriceInfo {
    /// Normalizes a current-price node: requires the total and a valid
    /// RFC 3339 start time, fills missing energy/tax parts from the total,
    /// and maps absent level data to the missing-data level.
    pub fn new(pinfo: CurrentPrice) -> (r: Option<PriceInfo>)
        requires
            pinfo.wf(),
        ensures
            r == spec_price_info(pinfo),
    {
        let CurrentPrice { total, energy, tax, starts_at, currency, level } = pinfo;
        let total = match total {
            Option::None => {
                return Option::None;
            },
            Some(t) => t,
        };
        let starts_at = match starts_at {
            Option::None => {
                return Option::None;
            },
            Some(s) => s,
        };
        if !parse_rfc3339_ok(starts_at.as_str()) {
            return Option::None;
        }
        let (energy_v, tax_v): (Decimal, Decimal) = match (energy, tax) {
            (Some(e), Some(t)) => (e, t),
            (Some(e), Option::None) => (e, Decimal { hundredths: total.hundredths - e.hundredths }),
            (Option::None, Some(t)) => (Decimal { hundredths: total.hundredths - t.hundredths }, t),
            (Option::None, Option::None) => (total, Decimal { hundredths: 0 }),
        };
        let level_v = match level {
            Some(l) => l,
            Option::None => PriceLevel::NoneLevel,
        };
        Some(
            PriceInfo {
                total,
                energy: energy_v,
                tax: tax_v,
                starts_at,
                currency,
                level: level_v,
            },
        )
    }
}

} // verus!
