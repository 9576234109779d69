//! The line scanner and block-state machine: the single pass that drives
//! parsing.  Outside any block it watches for the province marker, the fixed
//! terminal marker and the `variables` block opener; inside a variable block
//! it strips the fixed two-character indentation, splits each line at the
//! first `=` and routes the key through the dispatch table.
//!
//! The whole pass is specified by [`spec_step`], a transition function over
//! [`ScanStateV`], folded over the input lines by [`spec_scan`];
//! [`parse_save`] is proved to return exactly that fold.

use vstd::prelude::*;
use vstd::string::*;
use crate::numbers::ParseError;
use crate::province::{Province, ProvinceV, empty_province, nil_tag, is_nil_tag, province_fits};
use crate::dispatch::{Flow, spec_classify, spec_apply, classify_key, apply_key};
use crate::country::{CountryV, CountryMap, map_wf, spec_add_province};
use crate::text::{first_index_of, lemma_first_index_of, find_byte, starts_with, lines_view};

verus! {

/// The `=` byte separating a key from its value token.
pub const EQUALS_BYTE: u8 = 61;

/// The byte that opens a province record line.
pub const PROVINCE_MARKER_BYTE: u8 = 45;

/// How many leading indentation bytes a variable-block line carries.
pub const VARIABLE_INDENT: usize = 2;

/// The fixed sentinel line prefix marking "no real province": scanning stops
/// here for good.
pub open spec fn terminal_marker() -> Seq<u8> {
    "-5510".spec_bytes()
}

/// The exact opener of the variable sub-block, indentation included.
pub open spec fn variables_marker() -> Seq<u8> {
    "\t\tvariables={".spec_bytes()
}

/// A line that opens a province record.
pub open spec fn is_province_line(line: Seq<u8>) -> bool {
    line.len() > 0 && line[0] == PROVINCE_MARKER_BYTE
}

/// A line that stops the scan for good.
pub open spec fn is_terminal_line(line: Seq<u8>) -> bool {
    terminal_marker().is_prefix_of(line)
}

/// A line that enters the variable sub-block.
pub open spec fn is_variables_line(line: Seq<u8>) -> bool {
    variables_marker().is_prefix_of(line)
}

/// A variable-block line with the fixed indentation removed.
pub open spec fn stripped(line: Seq<u8>) -> Seq<u8> {
    if line.len() <= VARIABLE_INDENT {
        Seq::<u8>::empty()
    } else {
        line.skip(VARIABLE_INDENT as int)
    }
}

/// The key part of a stripped variable line: everything before the first `=`.
pub open spec fn key_of(s: Seq<u8>) -> Seq<u8> {
    s.take(first_index_of(s, EQUALS_BYTE))
}

/// The value token of a stripped variable line: everything after the first
/// `=`, or empty when there is none.
pub open spec fn value_of(s: Seq<u8>) -> Seq<u8> {
    let i = first_index_of(s, EQUALS_BYTE);
    if i < s.len() {
        s.skip(i + 1)
    } else {
        Seq::<u8>::empty()
    }
}

/// The scanner's whole state between two lines.
pub struct ScanStateV {
    /// The terminal marker has been seen; every further line is ignored.
    pub done: bool,
    /// The scanner is inside a `variables` sub-block.
    pub in_vars: bool,
    /// The province being read.
    pub prov: ProvinceV,
    /// The countries aggregated so far.
    pub countries: Seq<CountryV>,
}

pub open spec fn init_state() -> ScanStateV {
    ScanStateV {
        done: false,
        in_vars: false,
        prov: empty_province(),
        countries: Seq::<CountryV>::empty(),
    }
}

/// One transition of the block-state machine on one input line.
pub open spec fn spec_step(st: ScanStateV, line: Seq<u8>) -> Result<ScanStateV, ParseError> {
    if st.done {
        Ok(st)
    } else if st.in_vars {
        let s = stripped(line);
        match spec_classify(key_of(s)) {
            None => Ok(st),
            Some(k) => match spec_apply(k, value_of(s), st.prov) {
                Err(e) => Err(e),
                Ok(pf) => Ok(
                    ScanStateV { prov: pf.0, in_vars: pf.1 == Flow::Proceed, ..st },
                ),
            },
        }
    } else if is_province_line(line) {
        let closed = if st.prov.owner != nil_tag() {
            spec_add_province(st.countries, st.prov)
        } else {
            Ok(st.countries)
        };
        match closed {
            Err(e) => Err(e),
            Ok(cs) => Ok(
                ScanStateV {
                    done: is_terminal_line(line),
                    in_vars: false,
                    prov: empty_province(),
                    countries: cs,
                },
            ),
        }
    } else if is_variables_line(line) {
        Ok(ScanStateV { in_vars: true, ..st })
    } else {
        Ok(st)
    }
}

/// The fold of [`spec_step`] over the input, starting from the fresh state.
pub open spec fn spec_scan(lines: Seq<Seq<u8>>) -> Result<ScanStateV, ParseError>
    decreases lines.len(),
{
    if lines.len() == 0 {
        Ok(init_state())
    } else {
        match spec_scan(lines.drop_last()) {
            Err(e) => Err(e),
            Ok(st) => spec_step(st, lines.last()),
        }
    }
}

/// Stream end: an in-progress province with a real owner is finalized exactly
/// as at a province boundary.
pub open spec fn spec_finalize(st: ScanStateV) -> Result<Seq<CountryV>, ParseError> {
    if st.prov.owner != nil_tag() {
        spec_add_province(st.countries, st.prov)
    } else {
        Ok(st.countries)
    }
}

/// The country map a whole parse run produces, or the fatal numeric error.
pub open spec fn spec_parse(lines: Seq<Seq<u8>>) -> Result<Seq<CountryV>, ParseError> {
    match spec_scan(lines) {
        Err(e) => Err(e),
        Ok(st) => spec_finalize(st),
    }
}

/// Once the terminal marker has stopped the scan, the remaining lines change
/// nothing: the state after any longer prefix is the same.
pub proof fn lemma_scan_stays_done(lines: Seq<Seq<u8>>, st: ScanStateV, i: int, j: int)
    requires
        0 <= i <= j <= lines.len(),
        spec_scan(lines.take(i)) == Ok::<ScanStateV, ParseError>(st),
        st.done,
    ensures
        spec_scan(lines.take(j)) == Ok::<ScanStateV, ParseError>(st),
    decreases j - i,
{
    if j > i {
        lemma_scan_stays_done(lines, st, i, j - 1);
        assert(lines.take(j).drop_last() =~= lines.take(j - 1));
        assert(lines.take(j).last() == lines[j - 1]);
    }
}

/// A fatal numeric error aborts the run: every longer prefix gives the same
/// error.
pub proof fn lemma_scan_stays_err(lines: Seq<Seq<u8>>, e: ParseError, i: int, j: int)
    requires
        0 <= i <= j <= lines.len(),
        spec_scan(lines.take(i)) == Err::<ScanStateV, ParseError>(e),
    ensures
        spec_scan(lines.take(j)) == Err::<ScanStateV, ParseError>(e),
    decreases j - i,
{
    if j > i {
        lemma_scan_stays_err(lines, e, i, j - 1);
        assert(lines.take(j).drop_last() =~= lines.take(j - 1));
    }
}

/// Routes one stripped variable-block line: splits it at the first `=`, looks
/// the key up in the dispatch table and runs the handler.  Returns whether
/// the scanner stays inside the variable block.
pub fn variable_match(input: &[u8], province: &mut Province) -> (r: Result<bool, ParseError>)
    ensures
        match spec_classify(key_of(input@)) {
            None => r == Ok::<bool, ParseError>(true) && final(province)@ == old(province)@,
            Some(k) => match spec_apply(k, value_of(input@), old(province)@) {
                Ok(pf) => r == Ok::<bool, ParseError>(pf.1 == Flow::Proceed) && final(province)@
                    == pf.0,
                Err(e) => r == Err::<bool, ParseError>(e) && final(province)@ == old(province)@,
            },
        },
{
    let ei = find_byte(input, EQUALS_BYTE);
    proof {
        lemma_first_index_of(input@, EQUALS_BYTE);
    }
    let key: &[u8] = &input[0..ei];
    proof {
        assert(key@ =~= key_of(input@));
    }
    let k = match classify_key(key) {
        None => {
            return Ok(true);
        },
        Some(k) => k,
    };
    let value: &[u8] = if ei < input.len() {
        &input[ei + 1..input.len()]
    } else {
        &input[0..0]
    };
    proof {
        assert(value@ =~= value_of(input@));
    }
    match apply_key(k, value, province) {
        Ok(fl) => Ok(match fl {
            Flow::Proceed => true,
            Flow::EndBlock => false,
        }),
        Err(e) => Err(e),
    }
}

/// Parses a whole save, handed as its sequence of lines, into the country
/// map: the verified core of the run.  Returns exactly the fold of the
/// block-state machine over the lines, or the fatal numeric error.
pub fn parse_save(lines: &Vec<Vec<u8>>) -> (r: Result<CountryMap, ParseError>)
    ensures
        match r {
            Ok(m) => spec_parse(lines_view(lines@)) == Ok::<Seq<CountryV>, ParseError>(m@)
                && map_wf(m@),
            Err(e) => spec_parse(lines_view(lines@)) == Err::<Seq<CountryV>, ParseError>(e),
        },
{
    let ghost lv: Seq<Seq<u8>> = lines_view(lines@);
    let mut countries = CountryMap::new();
    let mut prov = Province::new();
    let mut in_vars: bool = false;
    let mut done: bool = false;
    let n: usize = lines.len();
    let mut idx: usize = 0;
    proof {
        assert(lv.take(0) =~= Seq::<Seq<u8>>::empty());
    }
    while idx < n && !done
        invariant
            n == lines@.len(),
            lv == lines_view(lines@),
            lv.len() == n,
            0 <= idx <= n,
            spec_scan(lv.take(idx as int)) == Ok::<ScanStateV, ParseError>(
                ScanStateV { done, in_vars, prov: prov@, countries: countries@ },
            ),
            map_wf(countries@),
            province_fits(prov@),
        decreases n - idx,
    {
        let ghost st = ScanStateV { done, in_vars, prov: prov@, countries: countries@ };
        let line: &Vec<u8> = &lines[idx];
        let ls: &[u8] = line.as_slice();
        proof {
            assert(lv[idx as int] == lines@[idx as int]@);
            assert(lv.take(idx + 1 as int).drop_last() =~= lv.take(idx as int));
            assert(lv.take(idx + 1 as int).last() == lv[idx as int]);
        }
        if in_vars {
            let sv: &[u8] = if ls.len() <= VARIABLE_INDENT {
                &ls[0..0]
            } else {
                &ls[VARIABLE_INDENT..ls.len()]
            };
            proof {
                assert(sv@ =~= stripped(lv[idx as int]));
            }
            match variable_match(sv, &mut prov) {
                Ok(b) => {
                    in_vars = b;
                },
                Err(e) => {
                    proof {
                        assert(spec_scan(lv.take(idx + 1 as int)) == Err::<
                            ScanStateV,
                            ParseError,
                        >(e));
                        lemma_scan_stays_err(lv, e, idx + 1, n as int);
                        assert(lv.take(n as int) =~= lv);
                    }
                    return Err(e);
                },
            }
        } else if ls.len() > 0 && ls[0] == PROVINCE_MARKER_BYTE {
            assert(is_province_line(lv[idx as int]));
            if !is_nil_tag(prov.owner.as_slice()) {
                match countries.add_province(prov) {
                    Ok(_) => {},
                    Err(e) => {
                        proof {
                            assert(spec_scan(lv.take(idx + 1 as int)) == Err::<
                                ScanStateV,
                                ParseError,
                            >(e));
                            lemma_scan_stays_err(lv, e, idx + 1, n as int);
                            assert(lv.take(n as int) =~= lv);
                        }
                        return Err(e);
                    },
                }
            }
            prov = Province::new();
            in_vars = false;
            done = starts_with(ls, "-5510".as_bytes());
        } else if starts_with(ls, "\t\tvariables={".as_bytes()) {
            assert(!is_province_line(lv[idx as int]));
            in_vars = true;
        } else {
            assert(!is_province_line(lv[idx as int]));
            assert(!is_variables_line(lv[idx as int]));
        }
        proof {
            let st2 = ScanStateV { done, in_vars, prov: prov@, countries: countries@ };
            assert(spec_step(st, lv[idx as int]) == Ok::<ScanStateV, ParseError>(st2));
        }
        idx = idx + 1;
    }
    let ghost st = ScanStateV { done, in_vars, prov: prov@, countries: countries@ };
    proof {
        if done {
            lemma_scan_stays_done(lv, st, idx as int, n as int);
        }
        assert(lv.take(n as int) =~= lv);
        assert(spec_scan(lv) == Ok::<ScanStateV, ParseError>(st));
    }
    // Stream end: close the in-progress province exactly as at a boundary.
    if !is_nil_tag(prov.owner.as_slice()) {
        match countries.add_province(prov) {
            Ok(_) => {},
            Err(e) => {
                return Err(e);
            },
        }
    }
    Ok(countries)
}

} // verus!
