//! Urgency-model configuration, read from a `key=value` text block.
//!
//! The three coefficients are fixed-point numbers in millionths
//! (micro-units): `1_000_000` stands for `1.0`. `urgency_age_max` is a
//! number of days, also in micro-units.

use crate::strutil::{
    all_digits, digits_val, find_char_from, find_char_spec, lemma_digits_val_bound,
    lemma_find_char, lemma_pow10_le, pow10, pow10_x, read_digits, str_eq,
};
use vstd::prelude::*;

verus! {

/// One micro-unit scale: the fixed-point representation of `1.0`.
pub const MICRO: i64 = 1_000_000;

#[derive(Debug, Clone, Copy, PartialEq, Eq, Structural)]
pub struct Config {
    /// Weight of the due-date component of urgency, in micro-units.
    pub urgency_due_coefficient: i64,
    /// Weight of the age component of urgency, in micro-units.
    pub urgency_age_coefficient: i64,
    /// Age, in micro-days, at which the age component saturates at `1.0`.
    pub urgency_age_max: i64,
}

impl Config {
    /// The default configuration: both coefficients `1.0`, age window 365 days.
    pub fn new() -> (r: Self)
        ensures
            r.urgency_due_coefficient == MICRO,
            r.urgency_age_coefficient == MICRO,
            r.urgency_age_max == 365 * MICRO,
    {
        Self {
            urgency_age_coefficient: 1_000_000,
            urgency_age_max: 365_000_000,
            urgency_due_coefficient: 1_000_000,
        }
    }
}

/// A malformed numeric value for one of the recognized keys.
#[derive(Debug, Clone, Copy, PartialEq, Eq, Structural)]
pub enum ConfigParseError {
    /// `urgency.age.coefficient` had a malformed value.
    AgeCoefficient,
    /// `urgency.age.max` had a malformed value.
    AgeMax,
    /// `urgency.due.coefficient` had a malformed value.
    DueCoefficient,
}

/// The default configuration as a value.
pub open spec fn default_config() -> Config {
    Config {
        urgency_due_coefficient: 1_000_000,
        urgency_age_coefficient: 1_000_000,
        urgency_age_max: 365_000_000,
    }
}

/// The value of an exponent part: an optional sign and one to three
/// digits.
pub open spec fn exponent_val(ex: Seq<char>) -> Option<int> {
    let signed = ex.len() >= 1 && (ex[0] == '-' || ex[0] == '+');
    let ed = if signed {
        ex.skip(1)
    } else {
        ex
    };
    if 1 <= ed.len() <= 3 && all_digits(ed) {
        Some(
            if signed && ex[0] == '-' {
                -digits_val(ed)
            } else {
                digits_val(ed)
            },
        )
    } else {
        None
    }
}

/// The index of the first exponent marker (`e` or `E`) in `s`, or its
/// length when there is none.
pub open spec fn exponent_marker(s: Seq<char>) -> int {
    if find_char_spec(s, 'e') <= find_char_spec(s, 'E') {
        find_char_spec(s, 'e')
    } else {
        find_char_spec(s, 'E')
    }
}

/// The micro-unit value of a mantissa — digits with at most one decimal
/// point, one to eighteen digits in all — scaled by ten to the `exp`,
/// rounded toward zero at the sixth decimal. `None` when the mantissa is
/// malformed or the value does not fit the fixed-point range.
pub open spec fn mantissa_micro(m: Seq<char>, exp: int) -> Option<int> {
    let k = find_char_spec(m, '.');
    let ip = m.take(k);
    let fp = if k == m.len() {
        Seq::<char>::empty()
    } else {
        m.skip(k + 1)
    };
    if all_digits(ip) && all_digits(fp) && 1 <= ip.len() + fp.len() <= 18 {
        let dval = digits_val(ip + fp);
        let shift = 6 + exp - fp.len();
        if dval == 0 {
            Some(0)
        } else if shift >= 0 {
            if dval * pow10(shift) <= 0x7fff_ffff_ffff_ffff {
                Some(dval * pow10(shift))
            } else {
                None
            }
        } else {
            Some(dval / pow10(-shift))
        }
    } else {
        None
    }
}

/// The magnitude, in micro-units, of an unsigned decimal numeral: a
/// mantissa with an optional `e`/`E` exponent part.
pub open spec fn magnitude_micro(s: Seq<char>) -> Option<int> {
    let e = exponent_marker(s);
    if e == s.len() {
        mantissa_micro(s, 0)
    } else {
        match exponent_val(s.skip(e + 1)) {
            Some(x) => mantissa_micro(s.take(e), x),
            None => None,
        }
    }
}

/// The value, in micro-units, of a decimal numeral with an optional
/// leading sign: the grammar of a floating-point literal (digits, an
/// optional point, an optional exponent), within the fixed-point model's
/// limits — at most eighteen significant digits, a three-digit exponent,
/// and a magnitude that fits in micro-units; the named non-numbers (`inf`,
/// `nan`) have no fixed-point value and are malformed here.
pub open spec fn parse_decimal_micro(s: Seq<char>) -> Option<int> {
    if s.len() >= 1 && (s[0] == '-' || s[0] == '+') {
        match magnitude_micro(s.skip(1)) {
            Some(v) => Some(
                if s[0] == '-' {
                    -v
                } else {
                    v
                },
            ),
            None => None,
        }
    } else {
        magnitude_micro(s)
    }
}

/// The effect of one configuration line/// The effect of one configuration line on an accumulated configuration:
/// lines without `=` and unknown keys are skipped; a recognized key with a
/// malformed value is an error.
pub open spec fn apply_line_spec(line: Seq<char>, cfg: Config) -> Result<Config, ConfigParseError> {
    let e = find_char_spec(line, '=');
    if e == line.len() {
        Ok(cfg)
    } else {
        let k = line.take(e);
        let v = line.skip(e + 1);
        if k == "urgency.age.coefficient"@ {
            match parse_decimal_micro(v) {
                Some(x) => Ok(Config { urgency_age_coefficient: x as i64, ..cfg }),
                None => Err(ConfigParseError::AgeCoefficient),
            }
        } else if k == "urgency.age.max"@ {
            match parse_decimal_micro(v) {
                Some(x) => Ok(Config { urgency_age_max: x as i64, ..cfg }),
                None => Err(ConfigParseError::AgeMax),
            }
        } else if k == "urgency.due.coefficient"@ {
            match parse_decimal_micro(v) {
                Some(x) => Ok(Config { urgency_due_coefficient: x as i64, ..cfg }),
                None => Err(ConfigParseError::DueCoefficient),
            }
        } else {
            Ok(cfg)
        }
    }
}

/// Folds `apply_line_spec` over the newline-separated lines of `s`.
pub open spec fn parse_lines_spec(s: Seq<char>, cfg: Config) -> Result<Config, ConfigParseError>
    decreases s.len(),
    via parse_lines_spec_dec
{
    let k = find_char_spec(s, '\n');
    match apply_line_spec(s.take(k), cfg) {
        Err(e) => Err(e),
        Ok(c2) => if k == s.len() {
            Ok(c2)
        } else {
            parse_lines_spec(s.skip(k + 1), c2)
        },
    }
}

#[via_fn]
proof fn parse_lines_spec_dec(s: Seq<char>, cfg: Config) {
    lemma_find_char(s, '\n');
}

/// What `Config::parse` returns for a given input.
pub open spec fn parse_config_spec(s: Seq<char>) -> Result<Config, ConfigParseError> {
    parse_lines_spec(s, default_config())
}

impl Default for Config {
    fn default() -> (r: Self)
        ensures
            r.urgency_due_coefficient == MICRO,
            r.urgency_age_coefficient == MICRO,
            r.urgency_age_max == 365 * MICRO,
    {
        Self::new()
    }
}

/// Parses a decimal numeral — an optional sign, digits with an optional
/// point, and an optional `e`/`E` exponent — into micro-units, rounding
/// toward zero at the sixth decimal.
pub fn parse_decimal(v: &str) -> (r: Option<i64>)
    ensures
        r is Some <==> parse_decimal_micro(v@) is Some,
        r matches Some(x) ==> parse_decimal_micro(v@) == Some(x as int),
{
    let len = v.unicode_len();
    let signed = len >= 1 && (v.get_char(0) == '-' || v.get_char(0) == '+');
    let neg = signed && v.get_char(0) == '-';
    let start: usize = if signed {
        1
    } else {
        0
    };
    proof {
        assert(v@.skip(0) =~= v@);
    }
    let magnitude = parse_magnitude(v, start, len);
    match magnitude {
        None => None,
        Some(u) => {
            if neg {
                Some(-(u as i64))
            } else {
                Some(u as i64)
            }
        },
    }
}

/// Parses the exponent digits of a numeral (after any sign), the
/// characters of `v` from `from` to `len`.
fn parse_exponent_digits(v: &str, from: usize, len: usize) -> (r: Option<u64>)
    requires
        from <= len == v@.len(),
    ensures
        ({
            let ed = v@.subrange(from as int, len as int);
            match r {
                Some(x) => 1 <= ed.len() <= 3 && all_digits(ed) && x == digits_val(ed) && x
                    <= 999,
                None => !(1 <= ed.len() <= 3 && all_digits(ed)),
            }
        }),
{
    let ghost ed = v@.subrange(from as int, len as int);
    let ewidth = len - from;
    if ewidth < 1 || ewidth > 3 {
        return None;
    }
    match read_digits(v, from, len) {
        None => None,
        Some(x) => {
            proof {
                lemma_digits_val_bound(ed);
                assert(pow10(3) == 1000) by {
                    reveal_with_fuel(pow10, 5);
                }
                lemma_pow10_le(ed.len() as int, 3);
            }
            Some(x)
        },
    }
}

/// Scales a positive digit value by ten to the `shift` into micro-units:
/// `None` exactly when the scaled value exceeds the fixed-point range.
fn scale_digits(dval: u64, shift: i64) -> (r: Option<u64>)
    requires
        0 < dval < 1_000_000_000_000_000_000,
        -2000 <= shift <= 2000,
    ensures
        r is Some <==> (shift < 0 || (dval as int) * pow10(shift as int)
            <= 0x7fff_ffff_ffff_ffff),
        r matches Some(u) ==> {
            &&& u as int == (if shift >= 0 {
                (dval as int) * pow10(shift as int)
            } else {
                (dval as int) / pow10(-shift as int)
            })
            &&& u <= 0x7fff_ffff_ffff_ffff
        },
{
    if shift >= 0 {
        if shift > 18 {
            proof {
                lemma_pow10_le(19, shift as int);
                assert(pow10(19) == 10_000_000_000_000_000_000) by {
                    reveal_with_fuel(pow10, 21);
                }
                assert((dval as int) * pow10(shift as int) > 0x7fff_ffff_ffff_ffff)
                    by (nonlinear_arith)
                    requires
                        dval >= 1,
                        pow10(shift as int) >= 10_000_000_000_000_000_000,
                ;
            }
            return None;
        }
        let mul = pow10_x(shift as u64);
        proof {
            lemma_pow10_le(shift as int, 18);
            assert(pow10(18) == 1_000_000_000_000_000_000) by {
                reveal_with_fuel(pow10, 20);
            }
            assert((dval as int) * (mul as int)
                < 1_000_000_000_000_000_000_000_000_000_000_000_000) by (nonlinear_arith)
                requires
                    0 <= (dval as int) < 1_000_000_000_000_000_000,
                    0 <= (mul as int) <= 1_000_000_000_000_000_000,
            ;
        }
        let prod: u128 = (dval as u128) * (mul as u128);
        if prod > 0x7fff_ffff_ffff_ffff {
            None
        } else {
            Some(prod as u64)
        }
    } else {
        let kk = -shift;
        if kk > 18 {
            proof {
                lemma_pow10_le(19, kk as int);
                assert(pow10(19) == 10_000_000_000_000_000_000) by {
                    reveal_with_fuel(pow10, 21);
                }
                vstd::arithmetic::div_mod::lemma_basic_div(dval as int, pow10(kk as int));
            }
            return Some(0);
        }
        let divi = pow10_x(kk as u64);
        proof {
            crate::strutil::lemma_pow10_pos(kk as int);
            crate::strutil::lemma_div_nonneg_le(dval as int, divi as int);
        }
        Some(dval / divi)
    }
}

/// Parses the magnitude part of a decimal numeral, the characters of `v`
/// from `start` to `len`, into micro-units.
#[verifier::rlimit(60)]
fn parse_magnitude(v: &str, start: usize, len: usize) -> (r: Option<u64>)
    requires
        start <= len == v@.len(),
    ensures
        r is Some <==> magnitude_micro(v@.skip(start as int)) is Some,
        r matches Some(u) ==> {
            &&& magnitude_micro(v@.skip(start as int)) == Some(u as int)
            &&& u <= 0x7fff_ffff_ffff_ffff
        },
{
    let ghost m = v@.skip(start as int);
    // the exponent marker, if any
    let pe = find_char_from(v, start, 'e');
    let cape = find_char_from(v, start, 'E');
    let epos = if pe < cape {
        pe
    } else {
        cape
    };
    proof {
        assert(exponent_marker(m) == epos - start);
    }
    // the exponent's value
    let exp: i64 = if epos == len {
        0
    } else {
        let ghost ex = m.skip(epos - start + 1);
        proof {
            assert(ex =~= v@.skip(epos + 1));
        }
        let esigned = epos + 1 < len && (v.get_char(epos + 1) == '-' || v.get_char(epos + 1)
            == '+');
        let eneg = esigned && v.get_char(epos + 1) == '-';
        let estart: usize = if esigned {
            epos + 2
        } else {
            epos + 1
        };
        proof {
            if esigned {
                assert(ex.skip(1) =~= v@.subrange(estart as int, len as int));
            } else {
                assert(ex =~= v@.subrange(estart as int, len as int));
            }
        }
        let edv = match parse_exponent_digits(v, estart, len) {
            None => {
                return None;
            },
            Some(x) => x,
        };
        if eneg {
            -(edv as i64)
        } else {
            edv as i64
        }
    };
    let ghost mant = m.take(epos - start);
    let mant_end = epos;
    proof {
        assert(mant =~= v@.subrange(start as int, mant_end as int));
    }
    // the decimal point within the mantissa, if any
    let dot = find_char_from(v, start, '.');
    proof {
        crate::strutil::lemma_find_char_is(
            mant,
            '.',
            (if dot < mant_end {
                dot
            } else {
                mant_end
            }) - start,
        );
    }
    let ip_to = if dot < mant_end {
        dot
    } else {
        mant_end
    };
    let fp_from = if dot < mant_end {
        dot + 1
    } else {
        mant_end
    };
    let ghost k = find_char_spec(mant, '.');
    let ghost ip = mant.take(k);
    let ghost fp = if k == mant.len() {
        Seq::<char>::empty()
    } else {
        mant.skip(k + 1)
    };
    proof {
        assert(ip =~= v@.subrange(start as int, ip_to as int));
        assert(fp =~= v@.subrange(fp_from as int, mant_end as int));
    }
    let ip_len = ip_to - start;
    let fp_len = mant_end - fp_from;
    if ip_len + fp_len < 1 || ip_len + fp_len > 18 {
        return None;
    }
    let ipv = match read_digits(v, start, ip_to) {
        None => {
            return None;
        },
        Some(x) => x,
    };
    let fpv = match read_digits(v, fp_from, mant_end) {
        None => {
            return None;
        },
        Some(x) => x,
    };
    proof {
        crate::strutil::lemma_digits_val_concat(ip, fp);
        lemma_digits_val_bound(ip);
        lemma_digits_val_bound(fp);
        lemma_digits_val_bound(ip + fp);
        assert((ip + fp).len() == ip.len() + fp.len());
        lemma_pow10_le((ip + fp).len() as int, 18);
        assert(pow10(18) == 1_000_000_000_000_000_000) by {
            reveal_with_fuel(pow10, 20);
        }
        assert(digits_val(ip) * pow10(fp.len() as int) >= 0) by {
            vstd::arithmetic::mul::lemma_mul_nonnegative(digits_val(ip), pow10(fp.len() as int));
        }
    }
    let dval: u64 = ipv * pow10_x(fp_len as u64) + fpv;
    if dval == 0 {
        return Some(0);
    }
    let shift: i64 = 6 + exp - (fp_len as i64);
    scale_digits(dval, shift)
}

impl Config {
    /// Parses a `key=value` configuration text block. Lines without `=` and
    /// unknown keys are ignored; a recognized key whose value is not a
    /// decimal numeral is an error.
    pub fn parse(input: &str) -> (r: Result<Config, ConfigParseError>)
        ensures
            r == parse_config_spec(input@),
    {
        let len = input.unicode_len();
        let mut cfg = Config::new();
        let mut pos: usize = 0;
        proof {
            assert(input@.skip(0) =~= input@);
        }
        loop
            invariant
                pos <= len,
                len == input@.len(),
                parse_config_spec(input@) == parse_lines_spec(input@.skip(pos as int), cfg),
            decreases len - pos,
        {
            let ghost s = input@.skip(pos as int);
            let nl = find_char_from(input, pos, '\n');
            proof {
                assert(s.take(nl - pos) =~= input@.subrange(pos as int, nl as int));
            }
            match apply_line(input, pos, nl, cfg) {
                Err(e) => {
                    return Err(e);
                },
                Ok(c2) => {
                    cfg = c2;
                },
            }
            if nl == len {
                return Ok(cfg);
            }
            proof {
                assert(s.skip(nl - pos + 1) =~= input@.skip(nl + 1));
            }
            pos = nl + 1;
        }
    }
}

/// Applies one configuration line, the characters of `input` from `from` to
/// `to`, to an accumulated configuration.
fn apply_line(input: &str, from: usize, to: usize, cfg: Config) -> (r: Result<
    Config,
    ConfigParseError,
>)
    requires
        from <= to <= input@.len(),
    ensures
        r == apply_line_spec(input@.subrange(from as int, to as int), cfg),
{
    let ghost line = input@.subrange(from as int, to as int);
    let eq = find_char_from(input, from, '=');
    proof {
        crate::strutil::lemma_find_char_is(
            line,
            '=',
            (if eq < to { eq } else { to }) - from,
        );
    }
    if eq >= to {
        return Ok(cfg);
    }
    let key = input.substring_char(from, eq);
    let val = input.substring_char(eq + 1, to);
    proof {
        assert(key@ =~= line.take(eq - from));
        assert(val@ =~= line.skip(eq - from + 1));
    }
    if str_eq(key, "urgency.age.coefficient") {
        match parse_decimal(val) {
            Some(x) => Ok(
                Config {
                    urgency_age_coefficient: x,
                    urgency_age_max: cfg.urgency_age_max,
                    urgency_due_coefficient: cfg.urgency_due_coefficient,
                },
            ),
            None => Err(ConfigParseError::AgeCoefficient),
        }
    } else if str_eq(key, "urgency.age.max") {
        match parse_decimal(val) {
            Some(x) => Ok(
                Config {
                    urgency_age_max: x,
                    urgency_age_coefficient: cfg.urgency_age_coefficient,
                    urgency_due_coefficient: cfg.urgency_due_coefficient,
                },
            ),
            None => Err(ConfigParseError::AgeMax),
        }
    } else if str_eq(key, "urgency.due.coefficient") {
        match parse_decimal(val) {
            Some(x) => Ok(
                Config {
                    urgency_due_coefficient: x,
                    urgency_age_coefficient: cfg.urgency_age_coefficient,
                    urgency_age_max: cfg.urgency_age_max,
                },
            ),
            None => Err(ConfigParseError::DueCoefficient),
        }
    } else {
        Ok(cfg)
    }
}

} // verus!
