//! The dispatch table: the fixed mapping from a known variable-block key to
//! the mutation it performs on the province being parsed.  Keys are matched
//! exactly, including the single leading tab the format puts before the
//! numeric ones.

use vstd::prelude::*;
use vstd::string::*;
use crate::numbers::{ParseError, POP_FRAC_DIGITS, WEALTH_FRAC_DIGITS};
use crate::province::{
    Province, ProvinceV, spec_add_scaled, prov_with_rural, prov_with_urban, prov_with_wealth,
    prov_with_urban_wealth, prov_with_name, prov_with_owner,
};
use crate::text::{bytes_eq, strip_surrounding_quotes};

verus! {

/// The operation a recognized key stands for.
#[derive(Debug, Clone, Copy, PartialEq, Eq, Structural)]
pub enum VarKey {
    RuralPop,
    RuralPopGrowing,
    UrbanPop,
    UrbanPopGrowing,
    WealthTotal,
    WealthUrban,
    Name,
    Owner,
    Institutions,
    History,
}

/// What a handler tells the scanner to do next.
#[derive(Debug, Clone, Copy, PartialEq, Eq, Structural)]
pub enum Flow {
    /// Stay inside the variable block.
    Proceed,
    /// Leave the variable block.
    EndBlock,
}

pub open spec fn key_rural() -> Seq<u8> {
    "\trural_population".spec_bytes()
}

pub open spec fn key_rural_growing() -> Seq<u8> {
    "\trural_population_growing".spec_bytes()
}

pub open spec fn key_urban() -> Seq<u8> {
    "\turban_population".spec_bytes()
}

pub open spec fn key_urban_growing() -> Seq<u8> {
    "\turban_population_growing".spec_bytes()
}

pub open spec fn key_wealth_total() -> Seq<u8> {
    "\twealth_total_growth".spec_bytes()
}

pub open spec fn key_wealth_urban() -> Seq<u8> {
    "\twealth_urban_growth".spec_bytes()
}

pub open spec fn key_name() -> Seq<u8> {
    "name".spec_bytes()
}

pub open spec fn key_owner() -> Seq<u8> {
    "owner".spec_bytes()
}

pub open spec fn key_institutions() -> Seq<u8> {
    "institutions".spec_bytes()
}

pub open spec fn key_history() -> Seq<u8> {
    "history".spec_bytes()
}

/// The dispatch table as a mapping: the operation a key selects, or `None`
/// for the many keys this extraction does not care about.
pub open spec fn spec_classify(key: Seq<u8>) -> Option<VarKey> {
    if key == key_rural() {
        Some(VarKey::RuralPop)
    } else if key == key_rural_growing() {
        Some(VarKey::RuralPopGrowing)
    } else if key == key_urban() {
        Some(VarKey::UrbanPop)
    } else if key == key_urban_growing() {
        Some(VarKey::UrbanPopGrowing)
    } else if key == key_wealth_total() {
        Some(VarKey::WealthTotal)
    } else if key == key_wealth_urban() {
        Some(VarKey::WealthUrban)
    } else if key == key_name() {
        Some(VarKey::Name)
    } else if key == key_owner() {
        Some(VarKey::Owner)
    } else if key == key_institutions() {
        Some(VarKey::Institutions)
    } else if key == key_history() {
        Some(VarKey::History)
    } else {
        None
    }
}

/// Builds the dispatch decision for one key.
pub fn classify_key(key: &[u8]) -> (r: Option<VarKey>)
    ensures
        r == spec_classify(key@),
{
    if bytes_eq(key, "\trural_population".as_bytes()) {
        Some(VarKey::RuralPop)
    } else if bytes_eq(key, "\trural_population_growing".as_bytes()) {
        Some(VarKey::RuralPopGrowing)
    } else if bytes_eq(key, "\turban_population".as_bytes()) {
        Some(VarKey::UrbanPop)
    } else if bytes_eq(key, "\turban_population_growing".as_bytes()) {
        Some(VarKey::UrbanPopGrowing)
    } else if bytes_eq(key, "\twealth_total_growth".as_bytes()) {
        Some(VarKey::WealthTotal)
    } else if bytes_eq(key, "\twealth_urban_growth".as_bytes()) {
        Some(VarKey::WealthUrban)
    } else if bytes_eq(key, "name".as_bytes()) {
        Some(VarKey::Name)
    } else if bytes_eq(key, "owner".as_bytes()) {
        Some(VarKey::Owner)
    } else if bytes_eq(key, "institutions".as_bytes()) {
        Some(VarKey::Institutions)
    } else if bytes_eq(key, "history".as_bytes()) {
        Some(VarKey::History)
    } else {
        None
    }
}

/// The effect of the handler for `k` on province `p`, given the value token:
/// the mutated province and whether the scanner stays in the variable block,
/// or the fatal numeric error.
pub open spec fn spec_apply(k: VarKey, value: Seq<u8>, p: ProvinceV) -> Result<
    (ProvinceV, Flow),
    ParseError,
> {
    match k {
        VarKey::RuralPop | VarKey::RuralPopGrowing => match spec_add_scaled(
            p.rural_pop,
            value,
            POP_FRAC_DIGITS as nat,
        ) {
            Ok(nv) => Ok((prov_with_rural(p, nv), Flow::Proceed)),
            Err(e) => Err(e),
        },
        VarKey::UrbanPop | VarKey::UrbanPopGrowing => match spec_add_scaled(
            p.urban_pop,
            value,
            POP_FRAC_DIGITS as nat,
        ) {
            Ok(nv) => Ok((prov_with_urban(p, nv), Flow::Proceed)),
            Err(e) => Err(e),
        },
        VarKey::WealthTotal => match spec_add_scaled(p.wealth_total_growth, value, WEALTH_FRAC_DIGITS as nat) {
            Ok(nv) => Ok((prov_with_wealth(p, nv), Flow::Proceed)),
            Err(e) => Err(e),
        },
        VarKey::WealthUrban => match spec_add_scaled(p.wealth_urban_growth, value, WEALTH_FRAC_DIGITS as nat) {
            Ok(nv) => Ok((prov_with_urban_wealth(p, nv), Flow::Proceed)),
            Err(e) => Err(e),
        },
        VarKey::Name => Ok((prov_with_name(p, strip_surrounding_quotes(value)), Flow::Proceed)),
        VarKey::Owner => Ok((prov_with_owner(p, strip_surrounding_quotes(value)), Flow::Proceed)),
        VarKey::Institutions | VarKey::History => Ok((p, Flow::EndBlock)),
    }
}

/// Runs the handler for `k` on `prov`.
pub fn apply_key(k: VarKey, value: &[u8], prov: &mut Province) -> (r: Result<Flow, ParseError>)
    ensures
        match spec_apply(k, value@, old(prov)@) {
            Ok(pf) => r == Ok::<Flow, ParseError>(pf.1) && final(prov)@ == pf.0,
            Err(e) => r == Err::<Flow, ParseError>(e) && final(prov)@ == old(prov)@,
        },
{
    match k {
        VarKey::RuralPop | VarKey::RuralPopGrowing => match Province::adjust_rural_pop(
            value,
            prov,
        ) {
            Ok(_) => Ok(Flow::Proceed),
            Err(e) => Err(e),
        },
        VarKey::UrbanPop | VarKey::UrbanPopGrowing => match Province::adjust_urban_pop(
            value,
            prov,
        ) {
            Ok(_) => Ok(Flow::Proceed),
            Err(e) => Err(e),
        },
        VarKey::WealthTotal => match Province::adjust_wealth_growth(value, prov) {
            Ok(_) => Ok(Flow::Proceed),
            Err(e) => Err(e),
        },
        VarKey::WealthUrban => match Province::adjust_urban_wealth_growth(value, prov) {
            Ok(_) => Ok(Flow::Proceed),
            Err(e) => Err(e),
        },
        VarKey::Name => {
            Province::set_name(value, prov);
            Ok(Flow::Proceed)
        },
        VarKey::Owner => {
            Province::set_owner(value, prov);
            Ok(Flow::Proceed)
        },
        VarKey::Institutions | VarKey::History => Ok(Flow::EndBlock),
    }
}

} // verus!
