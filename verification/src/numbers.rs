//! Exact parsing of the decimal value tokens that appear in a save file.
//!
//! A token such as `1.5` or `-0.375` is turned into an integer scaled by a
//! fixed power of ten, truncating any further fractional digits toward zero.
//! Populations are scaled by ten thousand (four fractional digits) and wealth
//! growth rates are kept to five fractional digits, so every later sum is
//! exact integer arithmetic.

use vstd::prelude::*;
use crate::text::first_index_of;
use crate::text::find_byte;
use crate::text::lemma_first_index_of;

verus! {

/// The `-` byte, a leading sign on a value token.
pub const MINUS_BYTE: u8 = 45;

/// The `+` byte, an optional leading sign on a value token.
pub const PLUS_BYTE: u8 = 43;

/// The `.` byte, separating integer and fractional digits.
pub const DOT_BYTE: u8 = 46;

/// Fractional digits kept for population values: the save file measures
/// population in units of ten thousand, so four digits make the stored
/// count exact.
pub const POP_FRAC_DIGITS: usize = 4;

/// Fractional digits kept for wealth growth values.
pub const WEALTH_FRAC_DIGITS: usize = 5;

/// Why a parse run was abandoned.
#[derive(Debug, Clone, Copy, PartialEq, Eq, Structural)]
pub enum ParseError {
    /// A token that had to be numeric was not a plain decimal number.
    InvalidNumber,
    /// A value or a running total left the representable integer range.
    Overflow,
}

pub open spec fn is_digit(b: u8) -> bool {
    48 <= b <= 57
}

pub open spec fn all_digits(s: Seq<u8>) -> bool {
    forall|i: int| 0 <= i < s.len() ==> is_digit(#[trigger] s[i])
}

/// The integer written by a sequence of digit bytes; 0 for the empty sequence.
pub open spec fn digits_val(s: Seq<u8>) -> int
    decreases s.len(),
{
    if s.len() == 0 {
        0
    } else {
        digits_val(s.drop_last()) * 10 + (s.last() - 48)
    }
}

pub open spec fn pow10(n: nat) -> int
    decreases n,
{
    if n == 0 {
        1
    } else {
        10 * pow10((n - 1) as nat)
    }
}

/// The fractional digits `fp`, read as `frac` fixed digits: shorter runs are
/// padded with zeros, longer runs are truncated.
pub open spec fn frac_scaled(fp: Seq<u8>, frac: nat) -> int {
    if fp.len() <= frac {
        digits_val(fp) * pow10((frac - fp.len()) as nat)
    } else {
        digits_val(fp.take(frac as int))
    }
}

/// The value of the token `s` scaled by `pow10(frac)` and truncated toward
/// zero, or `None` if `s` is not `[+|-]digits[.digits]` with at least one
/// digit.  This is the whole value grammar of the save format, which writes
/// figures as plain fixed-point decimals; any other shape is the fatal
/// numeric-format error.
pub open spec fn spec_parse_scaled(s: Seq<u8>, frac: nat) -> Option<int> {
    let neg = s.len() > 0 && s[0] == MINUS_BYTE;
    let body = if s.len() > 0 && (s[0] == MINUS_BYTE || s[0] == PLUS_BYTE) {
        s.drop_first()
    } else {
        s
    };
    let dot = first_index_of(body, DOT_BYTE);
    let ip = body.take(dot);
    let fp = if dot < body.len() {
        body.skip(dot + 1)
    } else {
        Seq::<u8>::empty()
    };
    if (ip.len() > 0 || fp.len() > 0) && all_digits(ip) && all_digits(fp) {
        let mag = digits_val(ip) * pow10(frac) + frac_scaled(fp, frac);
        if neg {
            Some(-mag)
        } else {
            Some(mag)
        }
    } else {
        None
    }
}

/// Values this library stores in an `i64`; the symmetric range, so that a
/// magnitude is representable whatever its sign.
pub open spec fn fits_i64(v: int) -> bool {
    -(i64::MAX as int) <= v <= i64::MAX as int
}

pub proof fn lemma_digits_val_nonneg(s: Seq<u8>)
    requires
        all_digits(s),
    ensures
        digits_val(s) >= 0,
    decreases s.len(),
{
    if s.len() > 0 {
        assert(all_digits(s.drop_last()));
        lemma_digits_val_nonneg(s.drop_last());
    }
}

pub proof fn lemma_digits_val_upper(s: Seq<u8>)
    requires
        all_digits(s),
    ensures
        digits_val(s) < pow10(s.len()),
    decreases s.len(),
{
    if s.len() > 0 {
        assert(all_digits(s.drop_last()));
        lemma_digits_val_upper(s.drop_last());
    }
}

pub proof fn lemma_pow10_pos(n: nat)
    ensures
        pow10(n) >= 1,
    decreases n,
{
    if n > 0 {
        lemma_pow10_pos((n - 1) as nat);
    }
}

pub proof fn lemma_pow10_add(a: nat, b: nat)
    ensures
        pow10(a + b) == pow10(a) * pow10(b),
    decreases a,
{
    if a == 0 {
        assert(pow10(0 + b) == 1 * pow10(b));
    } else {
        lemma_pow10_add((a - 1) as nat, b);
        assert(pow10(a + b) == 10 * pow10((a + b - 1) as nat));
        assert(10 * (pow10((a - 1) as nat) * pow10(b)) == (10 * pow10((a - 1) as nat)) * pow10(b))
            by (nonlinear_arith);
    }
}

/// Reading more digits never shrinks the value.
pub proof fn lemma_digits_val_prefix_le(s: Seq<u8>, i: int)
    requires
        all_digits(s),
        0 <= i <= s.len(),
    ensures
        digits_val(s.take(i)) <= digits_val(s),
    decreases s.len() - i,
{
    if i == s.len() {
        assert(s.take(i) =~= s);
    } else {
        assert(s.take(i + 1).drop_last() =~= s.take(i));
        assert(s.take(i + 1).last() == s[i]);
        assert(all_digits(s.take(i)));
        lemma_digits_val_nonneg(s.take(i));
        assert(digits_val(s.take(i + 1)) == digits_val(s.take(i)) * 10 + (s[i] - 48));
        assert(digits_val(s.take(i)) * 10 >= digits_val(s.take(i))) by (nonlinear_arith)
            requires digits_val(s.take(i)) >= 0;
        lemma_digits_val_prefix_le(s, i + 1);
    }
}

/// The decimal digits of `x`, most significant first.
pub open spec fn spec_digits(x: nat) -> Seq<u8>
    decreases x,
{
    if x < 10 {
        seq![(48 + x) as u8]
    } else {
        spec_digits(x / 10).push((48 + x % 10) as u8)
    }
}

pub proof fn lemma_spec_digits(x: nat)
    ensures
        spec_digits(x).len() >= 1,
        all_digits(spec_digits(x)),
        digits_val(spec_digits(x)) == x,
    decreases x,
{
    if x < 10 {
        assert(spec_digits(x) =~= seq![(48 + x) as u8]);
        assert(digits_val(spec_digits(x).drop_last()) == 0) by {
            assert(spec_digits(x).drop_last() =~= Seq::<u8>::empty());
        }
    } else {
        lemma_spec_digits(x / 10);
        let s = spec_digits(x);
        assert(s.drop_last() =~= spec_digits(x / 10));
        assert(s.last() == (48 + x % 10) as u8);
        assert(digits_val(s) == (x / 10) * 10 + x % 10);
        assert((x / 10) * 10 + x % 10 == x) by (nonlinear_arith);
        assert forall|i: int| 0 <= i < s.len() implies is_digit(#[trigger] s[i]) by {
            if i < s.len() - 1 {
                assert(s[i] == spec_digits(x / 10)[i]);
            }
        }
    }
}

/// Splitting a digit run: the left part counts for a factor of ten per digit
/// on its right.
pub proof fn lemma_digits_val_concat(a: Seq<u8>, b: Seq<u8>)
    ensures
        digits_val(a + b) == digits_val(a) * pow10(b.len()) + digits_val(b),
    decreases b.len(),
{
    if b.len() == 0 {
        assert(a + b =~= a);
        assert(pow10(0) == 1);
    } else {
        lemma_digits_val_concat(a, b.drop_last());
        assert((a + b).drop_last() =~= a + b.drop_last());
        assert((a + b).last() == b.last());
        assert(digits_val(a + b) == (digits_val(a) * pow10((b.len() - 1) as nat) + digits_val(
            b.drop_last(),
        )) * 10 + (b.last() - 48));
        assert((digits_val(a) * pow10((b.len() - 1) as nat)) * 10 == digits_val(a) * (10 * pow10(
            (b.len() - 1) as nat,
        ))) by (nonlinear_arith);
        assert(pow10(b.len()) == 10 * pow10((b.len() - 1) as nat));
    }
}

/// A run of zero digits counts for nothing.
pub proof fn lemma_zeros_val(z: Seq<u8>)
    requires
        forall|i: int| 0 <= i < z.len() ==> z[i] == 48,
    ensures
        all_digits(z),
        digits_val(z) == 0,
    decreases z.len(),
{
    if z.len() > 0 {
        lemma_zeros_val(z.drop_last());
    }
}

/// The integer written by a run of digit bytes, or `None` if it exceeds `u64`.
fn digits_to_u64(s: &[u8]) -> (r: Option<u64>)
    requires
        all_digits(s@),
    ensures
        match r {
            Some(v) => v as int == digits_val(s@),
            None => digits_val(s@) > u64::MAX as int,
        },
{
    let n: usize = s.len();
    let mut acc: u64 = 0;
    let mut i: usize = 0;
    while i < n
        invariant
            n == s@.len(),
            0 <= i <= n,
            all_digits(s@),
            acc as int == digits_val(s@.take(i as int)),
        decreases n - i,
    {
        let d = s[i];
        assert(is_digit(d));
        proof {
            assert(s@.take(i + 1 as int).drop_last() =~= s@.take(i as int));
            assert(s@.take(i + 1 as int).last() == s@[i as int]);
        }
        let step = match acc.checked_mul(10) {
            Some(m) => m.checked_add((d - 48) as u64),
            None => None,
        };
        match step {
            Some(v) => {
                acc = v;
            },
            None => {
                proof {
                    assert(digits_val(s@.take(i + 1 as int)) > u64::MAX as int);
                    lemma_digits_val_prefix_le(s@, i + 1);
                }
                return None;
            },
        }
        i = i + 1;
    }
    proof {
        assert(s@.take(n as int) =~= s@);
    }
    Some(acc)
}

/// A number below `pow10(n)` needs at most `n` digits.
pub proof fn lemma_spec_digits_len(x: nat, n: nat)
    requires
        x < pow10(n),
        n >= 1,
    ensures
        spec_digits(x).len() <= n,
    decreases x,
{
    if x >= 10 {
        assert(pow10(0) == 1);
        assert(pow10(1) == 10);
        if n == 1 {
            assert(false);
        }
        let d = x / 10;
        let r = x % 10;
        vstd::arithmetic::div_mod::lemma_fundamental_div_mod(x as int, 10);
        assert(pow10(n) == 10 * pow10((n - 1) as nat));
        assert(d < pow10((n - 1) as nat)) by {
            if d >= pow10((n - 1) as nat) {
                assert(10 * d >= 10 * pow10((n - 1) as nat)) by (nonlinear_arith)
                    requires
                        d >= pow10((n - 1) as nat),
                ;
                assert(false);
            }
        }
        lemma_spec_digits_len(d, (n - 1) as nat);
    }
}

/// Appends the decimal digits of `x`, most significant first.
fn push_digits(x: u64, out: &mut Vec<u8>)
    ensures
        final(out)@ == old(out)@ + spec_digits(x as nat),
    decreases x,
{
    if x < 10 {
        out.push(48 + x as u8);
        assert(out@ =~= old(out)@ + spec_digits(x as nat));
    } else {
        push_digits(x / 10, out);
        out.push(48 + (x % 10) as u8);
        assert(out@ =~= old(out)@ + spec_digits(x as nat));
    }
}

/// `pow10(frac)` as a machine integer, for the small scales used here.
fn pow10_u64(frac: usize) -> (r: u64)
    requires
        frac <= 5,
    ensures
        r as int == pow10(frac as nat),
        r >= 1,
{
    proof {
        assert(pow10(0) == 1);
        assert(pow10(1) == 10);
        assert(pow10(2) == 100);
        assert(pow10(3) == 1000);
        assert(pow10(4) == 10000);
        assert(pow10(5) == 100000);
    }
    if frac == 0 {
        1
    } else if frac == 1 {
        10
    } else if frac == 2 {
        100
    } else if frac == 3 {
        1000
    } else if frac == 4 {
        10000
    } else {
        100000
    }
}

fn check_all_digits(s: &[u8]) -> (r: bool)
    ensures
        r == all_digits(s@),
{
    let n: usize = s.len();
    let mut i: usize = 0;
    while i < n
        invariant
            n == s@.len(),
            0 <= i <= n,
            forall|j: int| 0 <= j < i ==> is_digit(#[trigger] s@[j]),
        decreases n - i,
    {
        let d = s[i];
        if d < 48 || d > 57 {
            assert(!is_digit(s@[i as int]));
            return false;
        }
        i = i + 1;
    }
    true
}

/// Parses the value token `s` into an integer scaled by `pow10(frac)`,
/// truncating extra fractional digits toward zero.  Fails with
/// `InvalidNumber` on a malformed token and with `Overflow` when the scaled
/// value does not fit the stored range.
pub fn parse_scaled(s: &[u8], frac: usize) -> (r: Result<i64, ParseError>)
    requires
        frac <= 5,
    ensures
        match spec_parse_scaled(s@, frac as nat) {
            Some(v) => if fits_i64(v) {
                r matches Ok(w) && w as int == v
            } else {
                r == Err::<i64, ParseError>(ParseError::Overflow)
            },
            None => r == Err::<i64, ParseError>(ParseError::InvalidNumber),
        },
{
    let ghost gfrac: nat = frac as nat;
    let neg = s.len() > 0 && s[0] == MINUS_BYTE;
    let start: usize = if s.len() > 0 && (s[0] == MINUS_BYTE || s[0] == PLUS_BYTE) {
        1
    } else {
        0
    };
    let body: &[u8] = &s[start..s.len()];
    proof {
        if start == 1 {
            assert(body@ =~= s@.drop_first());
        } else {
            assert(body@ =~= s@);
        }
    }
    let dot = find_byte(body, DOT_BYTE);
    proof {
        lemma_first_index_of(body@, DOT_BYTE);
    }
    let ip: &[u8] = &body[0..dot];
    let fp: &[u8] = if dot < body.len() {
        &body[dot + 1..body.len()]
    } else {
        &body[0..0]
    };
    proof {
        assert(ip@ =~= body@.take(dot as int));
        if dot < body.len() {
            assert(fp@ =~= body@.skip(dot + 1));
        } else {
            assert(fp@ =~= Seq::<u8>::empty());
        }
    }
    if !(ip.len() > 0 || fp.len() > 0) || !check_all_digits(ip) || !check_all_digits(fp) {
        return Err(ParseError::InvalidNumber);
    }
    let ghost mag: int = digits_val(ip@) * pow10(gfrac) + frac_scaled(fp@, gfrac);
    proof {
        lemma_digits_val_nonneg(ip@);
        lemma_pow10_pos(gfrac);
    }

    // The fractional contribution is below pow10(frac), so it fits easily.
    let fs: u64 = if fp.len() <= frac {
        let fv = match digits_to_u64(fp) {
            Some(v) => v,
            None => {
                proof {
                    lemma_digits_val_upper(fp@);
                    lemma_pow10_pos(fp@.len());
                    assert(pow10(fp@.len()) <= pow10(5)) by {
                        lemma_pow10_add(fp@.len(), (5 - fp@.len()) as nat);
                        lemma_pow10_pos((5 - fp@.len()) as nat);
                        assert(pow10(fp@.len()) * 1 <= pow10(fp@.len()) * pow10(
                            (5 - fp@.len()) as nat,
                        )) by (nonlinear_arith)
                            requires
                                pow10(fp@.len()) >= 1,
                                pow10((5 - fp@.len()) as nat) >= 1,
                        ;
                    }
                    assert(pow10(5) == 100000) by {
                        assert(pow10(0) == 1);
                        assert(pow10(1) == 10);
                        assert(pow10(2) == 100);
                        assert(pow10(3) == 1000);
                        assert(pow10(4) == 10000);
                    }
                    assert(false);
                }
                0
            },
        };
        let p = pow10_u64(frac - fp.len());
        proof {
            lemma_digits_val_upper(fp@);
            lemma_pow10_add(fp@.len(), (gfrac - fp@.len()) as nat);
            assert((fv as int) * (p as int) < pow10(gfrac)) by (nonlinear_arith)
                requires
                    (fv as int) < pow10(fp@.len()),
                    p as int == pow10((gfrac - fp@.len()) as nat),
                    p >= 1,
                    pow10(fp@.len()) * pow10((gfrac - fp@.len()) as nat) == pow10(gfrac),
                    fv >= 0,
            ;
            assert(pow10(gfrac) <= pow10(5)) by {
                lemma_pow10_add(gfrac, (5 - gfrac) as nat);
                lemma_pow10_pos((5 - gfrac) as nat);
                assert(pow10(gfrac) * 1 <= pow10(gfrac) * pow10((5 - gfrac) as nat))
                    by (nonlinear_arith)
                    requires
                        pow10(gfrac) >= 1,
                        pow10((5 - gfrac) as nat) >= 1,
                ;
            }
            assert(pow10(5) == 100000) by {
                assert(pow10(0) == 1);
                assert(pow10(1) == 10);
                assert(pow10(2) == 100);
                assert(pow10(3) == 1000);
                assert(pow10(4) == 10000);
            }
            lemma_digits_val_nonneg(fp@);
        }
        fv * p
    } else {
        let fpt: &[u8] = &fp[0..frac];
        proof {
            assert(fpt@ =~= fp@.take(frac as int));
            assert(all_digits(fpt@));
        }
        match digits_to_u64(fpt) {
            Some(v) => {
                proof {
                    lemma_digits_val_upper(fpt@);
                    assert(pow10(fpt@.len()) <= pow10(5)) by {
                        lemma_pow10_add(fpt@.len(), (5 - fpt@.len()) as nat);
                        lemma_pow10_pos((5 - fpt@.len()) as nat);
                        assert(pow10(fpt@.len()) * 1 <= pow10(fpt@.len()) * pow10(
                            (5 - fpt@.len()) as nat,
                        )) by (nonlinear_arith)
                            requires
                                pow10(fpt@.len()) >= 1,
                                pow10((5 - fpt@.len()) as nat) >= 1,
                        ;
                    }
                    assert(pow10(5) == 100000) by {
                        assert(pow10(0) == 1);
                        assert(pow10(1) == 10);
                        assert(pow10(2) == 100);
                        assert(pow10(3) == 1000);
                        assert(pow10(4) == 10000);
                    }
                }
                v
            },
            None => {
                proof {
                    lemma_digits_val_upper(fpt@);
                    lemma_pow10_pos(fpt@.len());
                    assert(pow10(fpt@.len()) <= pow10(5)) by {
                        lemma_pow10_add(fpt@.len(), (5 - fpt@.len()) as nat);
                        lemma_pow10_pos((5 - fpt@.len()) as nat);
                        assert(pow10(fpt@.len()) * 1 <= pow10(fpt@.len()) * pow10(
                            (5 - fpt@.len()) as nat,
                        )) by (nonlinear_arith)
                            requires
                                pow10(fpt@.len()) >= 1,
                                pow10((5 - fpt@.len()) as nat) >= 1,
                        ;
                    }
                    assert(pow10(5) == 100000) by {
                        assert(pow10(0) == 1);
                        assert(pow10(1) == 10);
                        assert(pow10(2) == 100);
                        assert(pow10(3) == 1000);
                        assert(pow10(4) == 10000);
                    }
                    assert(false);
                }
                0
            },
        }
    };
    assert(fs as int == frac_scaled(fp@, gfrac));
    proof {
        if fp@.len() <= gfrac {
            lemma_digits_val_nonneg(fp@);
            lemma_pow10_pos((gfrac - fp@.len()) as nat);
            assert(digits_val(fp@) * pow10((gfrac - fp@.len()) as nat) >= 0) by (nonlinear_arith)
                requires
                    digits_val(fp@) >= 0,
                    pow10((gfrac - fp@.len()) as nat) >= 0,
            ;
        } else {
            assert(all_digits(fp@.take(gfrac as int)));
            lemma_digits_val_nonneg(fp@.take(gfrac as int));
        }
        assert(frac_scaled(fp@, gfrac) >= 0);
    }

    let pw = pow10_u64(frac);
    let mag_u: Option<u64> = match digits_to_u64(ip) {
        Some(ipv) => {
            match ipv.checked_mul(pw) {
                Some(m) => m.checked_add(fs),
                None => {
                    proof {
                        assert(digits_val(ip@) * pow10(gfrac) > u64::MAX as int);
                    }
                    None
                },
            }
        },
        None => {
            proof {
                assert(digits_val(ip@) * pow10(gfrac) >= digits_val(ip@) * 1) by (nonlinear_arith)
                    requires
                        digits_val(ip@) >= 0,
                        pow10(gfrac) >= 1,
                ;
            }
            None
        },
    };
    match mag_u {
        Some(m) => {
            assert(m as int == mag);
            if m > 0x7fff_ffff_ffff_ffff {
                assert(!fits_i64(if neg { -mag } else { mag }));
                Err(ParseError::Overflow)
            } else if neg {
                Ok(-(m as i64))
            } else {
                Ok(m as i64)
            }
        },
        None => {
            assert(mag > u64::MAX as int);
            assert(!fits_i64(if neg { -mag } else { mag }));
            Err(ParseError::Overflow)
        },
    }
}

/// The canonical text of a figure stored scaled by `pow10(frac)`: an
/// optional sign, the integer digits, and, when `frac > 0`, a point followed
/// by exactly `frac` fractional digits.  Parsing the text back yields
/// exactly the stored figure: the value encoding round-trips.
#[verifier::rlimit(100)]
pub fn render_scaled(v: i64, frac: usize) -> (r: Vec<u8>)
    requires
        frac <= 5,
    ensures
        spec_parse_scaled(r@, frac as nat) == Some(v as int),
{
    let ghost gfrac: nat = frac as nat;
    let neg = v < 0;
    let m: u64 = if v == i64::MIN {
        9223372036854775808u64
    } else if v < 0 {
        (-v) as u64
    } else {
        v as u64
    };
    assert(m as int == if v < 0 {
        -(v as int)
    } else {
        v as int
    });
    let p = pow10_u64(frac);
    let q = m / p;
    let rf = m % p;
    proof {
        vstd::arithmetic::div_mod::lemma_fundamental_div_mod(m as int, p as int);
    }
    let mut out: Vec<u8> = Vec::new();
    if neg {
        out.push(45);
    }
    let ghost sign: Seq<u8> = if neg {
        seq![45u8]
    } else {
        Seq::<u8>::empty()
    };
    assert(out@ =~= sign);
    push_digits(q, &mut out);
    let ghost ip = spec_digits(q as nat);
    proof {
        lemma_spec_digits(q as nat);
    }
    assert(out@ == sign + ip);
    let ghost mut fp: Seq<u8> = Seq::<u8>::empty();
    if frac > 0 {
        out.push(46);
        assert(out@ =~= sign + ip + seq![46u8]);
        let mut ftmp: Vec<u8> = Vec::new();
        push_digits(rf, &mut ftmp);
        proof {
            lemma_spec_digits(rf as nat);
            assert(ftmp@ =~= spec_digits(rf as nat));
            assert((rf as nat) < pow10(gfrac));
            lemma_spec_digits_len(rf as nat, gfrac);
        }
        let dcount = ftmp.len();
        let ghost base = sign + ip + seq![46u8];
        let mut k: usize = dcount;
        while k < frac
            invariant
                dcount <= k <= frac,
                dcount == ftmp@.len(),
                out@.len() == base.len() + k - dcount,
                out@.take(base.len() as int) == base,
                forall|i: int| base.len() <= i < out@.len() ==> out@[i] == 48,
            decreases frac - k,
        {
            out.push(48);
            proof {
                assert(out@.take(base.len() as int) =~= base);
            }
            k = k + 1;
        }
        let ghost zeros = out@.skip(base.len() as int);
        proof {
            assert(forall|i: int| 0 <= i < zeros.len() ==> zeros[i] == 48);
            assert(zeros.len() == frac - dcount);
            lemma_zeros_val(zeros);
            assert(out@ =~= base + zeros);
        }
        let ghost mid = out@;
        proof {
            assert(out@ =~= mid + ftmp@.take(0));
        }
        let mut j: usize = 0;
        while j < dcount
            invariant
                0 <= j <= dcount,
                dcount == ftmp@.len(),
                out@ == mid + ftmp@.take(j as int),
            decreases dcount - j,
        {
            out.push(ftmp[j]);
            proof {
                assert(out@ =~= mid + ftmp@.take(j + 1 as int));
            }
            j = j + 1;
        }
        proof {
            assert(ftmp@.take(dcount as int) =~= ftmp@);
            assert(out@ =~= sign + ip + seq![46u8] + (zeros + ftmp@));
        }
        proof {
            fp = zeros + ftmp@;
        }
        proof {
            assert(fp.len() == gfrac);
            assert forall|i: int| 0 <= i < fp.len() implies is_digit(#[trigger] fp[i]) by {
                if i < zeros.len() {
                    assert(fp[i] == zeros[i]);
                } else {
                    assert(fp[i] == ftmp@[i - zeros.len()]);
                    assert(is_digit(ftmp@[i - zeros.len()]));
                }
            }
            assert(all_digits(fp));
            lemma_digits_val_concat(zeros, ftmp@);
            assert(digits_val(fp) == rf as int);
        }
    }
    proof {
        let s = out@;
        let body = if neg {
            s.drop_first()
        } else {
            s
        };
        if frac > 0 {
            assert(body =~= ip + seq![46u8] + fp);
        } else {
            assert(body =~= ip);
        }
        lemma_first_index_of(body, DOT_BYTE);
        let f = first_index_of(body, DOT_BYTE);
        if frac > 0 {
            // The dot stands right after the integer digits; the digits
            // before and after it are digits, never the dot byte.
            assert(body[ip.len() as int] == 46);
            if f < ip.len() {
                assert(is_digit(ip[f]));
                assert(body[f] == ip[f]);
                assert(false);
            }
            if f > ip.len() {
                assert(body[ip.len() as int] != DOT_BYTE);
                assert(false);
            }
            assert(f == ip.len());
            assert(body.take(f) =~= ip);
            assert(body.skip(f + 1) =~= fp);
            assert(fp.len() <= gfrac);
            assert(frac_scaled(fp, gfrac) == digits_val(fp) * pow10(0));
            assert(digits_val(fp) * pow10(0) == digits_val(fp)) by (nonlinear_arith)
                requires
                    pow10(0) == 1,
            ;
        } else {
            if f < body.len() {
                assert(is_digit(ip[f]));
                assert(false);
            }
            assert(body.take(f) =~= ip);
            assert(frac_scaled(Seq::<u8>::empty(), gfrac) == 0) by {
                assert(digits_val(Seq::<u8>::empty()) == 0);
                lemma_pow10_pos(gfrac);
                assert(digits_val(Seq::<u8>::empty()) * pow10(gfrac) == 0) by (nonlinear_arith)
                    requires
                        digits_val(Seq::<u8>::empty()) == 0,
                ;
            }
        }
        // The sign branch of the parse matches `neg` exactly.
        if neg {
            assert(s[0] == 45);
        } else {
            assert(s[0] == ip[0]);
            assert(is_digit(s[0]));
            assert(s[0] != MINUS_BYTE);
            assert(s[0] != PLUS_BYTE);
        }
        // The magnitude recomposes to m, hence the parse yields v.
        assert(digits_val(ip) * pow10(gfrac) + (m as int - (p as int) * (q as int)) == m as int)
            by (nonlinear_arith)
            requires
                digits_val(ip) == q as int,
                p as int == pow10(gfrac),
                m as int == (p as int) * (q as int) + (m as int - (p as int) * (q as int)),
        ;
    }
    out
}

} // verus!
