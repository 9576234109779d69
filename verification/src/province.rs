//! The province being parsed: one geographic unit, mutated line by line while
//! the scanner is inside its `variables` block, then folded into its owning
//! country.

use vstd::prelude::*;
use crate::numbers::{
    ParseError, fits_i64, spec_parse_scaled, parse_scaled, POP_FRAC_DIGITS, WEALTH_FRAC_DIGITS,
};
use crate::text::{strip_surrounding_quotes, strip_surrounding_quotes_vec, sub_vec, bytes_eq};
use vstd::string::*;

verus! {

/// The mathematical content of a [`Province`]: plain sequences and unbounded
/// integers.
pub struct ProvinceV {
    pub name: Seq<u8>,
    pub rural_pop: int,
    pub urban_pop: int,
    pub wealth_total_growth: int,
    pub wealth_urban_growth: int,
    pub owner: Seq<u8>,
}

/// The owner tag a fresh province carries until an `owner` line sets it; a
/// province still carrying it is never attributed to any country.
pub open spec fn nil_tag() -> Seq<u8> {
    "NIL".spec_bytes()
}

/// Whether `s` is the sentinel owner tag.
pub fn is_nil_tag(s: &[u8]) -> (r: bool)
    ensures
        r == (s@ == nil_tag()),
{
    bytes_eq(s, "NIL".as_bytes())
}

/// A fresh province: empty name, zero figures, sentinel owner.
pub open spec fn empty_province() -> ProvinceV {
    ProvinceV {
        name: Seq::<u8>::empty(),
        rural_pop: 0,
        urban_pop: 0,
        wealth_total_growth: 0,
        wealth_urban_growth: 0,
        owner: nil_tag(),
    }
}

/// All four figures of `p` fit the stored integer range.
pub open spec fn province_fits(p: ProvinceV) -> bool {
    &&& fits_i64(p.rural_pop)
    &&& fits_i64(p.urban_pop)
    &&& fits_i64(p.wealth_total_growth)
    &&& fits_i64(p.wealth_urban_growth)
}

/// Adding the value of token `num`, scaled by `pow10(frac)`, to the running
/// figure `cur`: the error when the token is malformed or a value leaves the
/// stored range, otherwise the new figure.
pub open spec fn spec_add_scaled(cur: int, num: Seq<u8>, frac: nat) -> Result<int, ParseError> {
    match spec_parse_scaled(num, frac) {
        None => Err(ParseError::InvalidNumber),
        Some(v) => if !fits_i64(v) || !fits_i64(cur + v) {
            Err(ParseError::Overflow)
        } else {
            Ok(cur + v)
        },
    }
}

pub open spec fn prov_with_rural(p: ProvinceV, v: int) -> ProvinceV {
    ProvinceV { rural_pop: v, ..p }
}

pub open spec fn prov_with_urban(p: ProvinceV, v: int) -> ProvinceV {
    ProvinceV { urban_pop: v, ..p }
}

pub open spec fn prov_with_wealth(p: ProvinceV, v: int) -> ProvinceV {
    ProvinceV { wealth_total_growth: v, ..p }
}

pub open spec fn prov_with_urban_wealth(p: ProvinceV, v: int) -> ProvinceV {
    ProvinceV { wealth_urban_growth: v, ..p }
}

pub open spec fn prov_with_name(p: ProvinceV, v: Seq<u8>) -> ProvinceV {
    ProvinceV { name: v, ..p }
}

pub open spec fn prov_with_owner(p: ProvinceV, v: Seq<u8>) -> ProvinceV {
    ProvinceV { owner: v, ..p }
}

/// One geographic unit read from the save file.  Populations are stored as
/// head counts (the file gives them in units of ten thousand); wealth growth
/// rates are stored scaled to five fractional digits.
pub struct Province {
    pub name: Vec<u8>,
    pub rural_pop: i64,
    pub urban_pop: i64,
    pub wealth_total_growth: i64,
    pub wealth_urban_growth: i64,
    pub owner: Vec<u8>,
}

impl View for Province {
    type V = ProvinceV;

    open spec fn view(&self) -> ProvinceV {
        ProvinceV {
            name: self.name@,
            rural_pop: self.rural_pop as int,
            urban_pop: self.urban_pop as int,
            wealth_total_growth: self.wealth_total_growth as int,
            wealth_urban_growth: self.wealth_urban_growth as int,
            owner: self.owner@,
        }
    }
}

impl Province {
    pub fn new() -> (p: Province)
        ensures
            p@ == empty_province(),
    {
        let nil = "NIL".as_bytes();
        let owner = sub_vec(nil, 0, nil.len());
        proof {
            assert(owner@ =~= nil_tag());
        }
        let p = Province {
            name: Vec::new(),
            rural_pop: 0,
            urban_pop: 0,
            wealth_total_growth: 0,
            wealth_urban_growth: 0,
            owner,
        };
        assert(p@ =~= empty_province());
        p
    }

    /// Adds `round-toward-zero(value * 10000)` heads to the rural population.
    pub fn adjust_rural_pop(num: &[u8], prov: &mut Province) -> (r: Result<(), ParseError>)
        ensures
            match spec_add_scaled(old(prov)@.rural_pop, num@, POP_FRAC_DIGITS as nat) {
                Ok(nv) => r == Ok::<(), ParseError>(()) && final(prov)@ == prov_with_rural(
                    old(prov)@,
                    nv,
                ),
                Err(e) => r == Err::<(), ParseError>(e) && final(prov)@ == old(prov)@,
            },
    {
        let v = match parse_scaled(num, POP_FRAC_DIGITS) {
            Ok(v) => v,
            Err(e) => {
                return Err(e);
            },
        };
        match prov.rural_pop.checked_add(v) {
            Some(nv) => {
                if nv == i64::MIN {
                    Err(ParseError::Overflow)
                } else {
                    prov.rural_pop = nv;
                    Ok(())
                }
            },
            None => Err(ParseError::Overflow),
        }
    }

    /// Adds `round-toward-zero(value * 10000)` heads to the urban population.
    pub fn adjust_urban_pop(num: &[u8], prov: &mut Province) -> (r: Result<(), ParseError>)
        ensures
            match spec_add_scaled(old(prov)@.urban_pop, num@, POP_FRAC_DIGITS as nat) {
                Ok(nv) => r == Ok::<(), ParseError>(()) && final(prov)@ == prov_with_urban(
                    old(prov)@,
                    nv,
                ),
                Err(e) => r == Err::<(), ParseError>(e) && final(prov)@ == old(prov)@,
            },
    {
        let v = match parse_scaled(num, POP_FRAC_DIGITS) {
            Ok(v) => v,
            Err(e) => {
                return Err(e);
            },
        };
        match prov.urban_pop.checked_add(v) {
            Some(nv) => {
                if nv == i64::MIN {
                    Err(ParseError::Overflow)
                } else {
                    prov.urban_pop = nv;
                    Ok(())
                }
            },
            None => Err(ParseError::Overflow),
        }
    }

    /// Adds the value to the total wealth growth figure.
    pub fn adjust_wealth_growth(num: &[u8], prov: &mut Province) -> (r: Result<(), ParseError>)
        ensures
            match spec_add_scaled(old(prov)@.wealth_total_growth, num@, WEALTH_FRAC_DIGITS as nat) {
                Ok(nv) => r == Ok::<(), ParseError>(()) && final(prov)@ == prov_with_wealth(
                    old(prov)@,
                    nv,
                ),
                Err(e) => r == Err::<(), ParseError>(e) && final(prov)@ == old(prov)@,
            },
    {
        let v = match parse_scaled(num, WEALTH_FRAC_DIGITS) {
            Ok(v) => v,
            Err(e) => {
                return Err(e);
            },
        };
        match prov.wealth_total_growth.checked_add(v) {
            Some(nv) => {
                if nv == i64::MIN {
                    Err(ParseError::Overflow)
                } else {
                    prov.wealth_total_growth = nv;
                    Ok(())
                }
            },
            None => Err(ParseError::Overflow),
        }
    }

    /// Adds the value to the urban wealth growth figure.
    pub fn adjust_urban_wealth_growth(num: &[u8], prov: &mut Province) -> (r: Result<
        (),
        ParseError,
    >)
        ensures
            match spec_add_scaled(old(prov)@.wealth_urban_growth, num@, WEALTH_FRAC_DIGITS as nat) {
                Ok(nv) => r == Ok::<(), ParseError>(()) && final(prov)@ == prov_with_urban_wealth(
                    old(prov)@,
                    nv,
                ),
                Err(e) => r == Err::<(), ParseError>(e) && final(prov)@ == old(prov)@,
            },
    {
        let v = match parse_scaled(num, WEALTH_FRAC_DIGITS) {
            Ok(v) => v,
            Err(e) => {
                return Err(e);
            },
        };
        match prov.wealth_urban_growth.checked_add(v) {
            Some(nv) => {
                if nv == i64::MIN {
                    Err(ParseError::Overflow)
                } else {
                    prov.wealth_urban_growth = nv;
                    Ok(())
                }
            },
            None => Err(ParseError::Overflow),
        }
    }

    /// Sets the province name to the value with its surrounding quote
    /// characters stripped.
    pub fn set_name(value: &[u8], prov: &mut Province)
        ensures
            final(prov)@ == prov_with_name(old(prov)@, strip_surrounding_quotes(value@)),
    {
        prov.name = strip_surrounding_quotes_vec(value);
    }

    /// Sets the owner tag to the value with its surrounding quote characters
    /// stripped.
    pub fn set_owner(value: &[u8], prov: &mut Province)
        ensures
            final(prov)@ == prov_with_owner(old(prov)@, strip_surrounding_quotes(value@)),
    {
        prov.owner = strip_surrounding_quotes_vec(value);
    }
}

} // verus!
