//! The task-store client's data model: the export call's arguments
//! (urgency coefficient overrides and filters). Running the external
//! process lives outside the library; this module assembles what it runs
//! with.

use crate::strutil::{append_dec, append_digit, dec_digits, digit_char, pow10, pow10_x, string_eq};
use vstd::prelude::*;

verus! {

/// A task-store client: just the path of the binary to run.
#[derive(Debug)]
pub struct Taskwarrior {
    binary: String,
}

impl Taskwarrior {
    /// The binary path's content.
    pub closed spec fn binary_view(&self) -> Seq<char> {
        self.binary@
    }

    /// A client running `binary`.
    pub fn new(binary: String) -> (r: Self)
        ensures
            r.binary_view() == binary@,
    {
        Self { binary }
    }

    /// The binary path to run.
    pub fn binary(&self) -> (r: &String)
        ensures
            r@ == self.binary_view(),
    {
        &self.binary
    }

    /// Begins assembling the arguments of one export run, with no
    /// coefficient overrides and no filters yet.
    pub fn export(&self) -> (r: ExportBuilder)
        ensures
            r.binary@ == self.binary_view(),
            r.urgency_coefficients@ == Seq::<(String, i64)>::empty(),
            r.filters@ == Seq::<String>::empty(),
    {
        ExportBuilder {
            binary: self.binary.clone(),
            urgency_coefficients: Vec::new(),
            filters: Vec::new(),
        }
    }
}

/// The first index in `pairs` whose key has content `k`, or the length
/// when absent.
pub open spec fn coefficient_find(pairs: Seq<(String, i64)>, k: Seq<char>) -> int
    decreases pairs.len(),
{
    if pairs.len() == 0 {
        0
    } else if pairs[0].0@ == k {
        0
    } else {
        1 + coefficient_find(pairs.skip(1), k)
    }
}

/// Any index with the first-occurrence characterization is
/// `coefficient_find`.
proof fn lemma_coefficient_find_is(pairs: Seq<(String, i64)>, k: Seq<char>, w: int)
    requires
        0 <= w <= pairs.len(),
        forall|j: int| 0 <= j < w ==> pairs[j].0@ != k,
        w < pairs.len() ==> pairs[w].0@ == k,
    ensures
        coefficient_find(pairs, k) == w,
    decreases pairs.len(),
{
    if pairs.len() > 0 && pairs[0].0@ != k {
        lemma_coefficient_find_is(pairs.skip(1), k, w - 1);
    }
}

/// The fractional digits of `f` rendered to `k` decimal places with the
/// trailing zeros removed: nothing once `f` is exhausted, else the leading
/// digit followed by the rest.
pub open spec fn frac_digits(f: int, k: int) -> Seq<char>
    decreases k,
{
    if k <= 0 || f <= 0 {
        Seq::empty()
    } else {
        seq![digit_char(f / pow10(k - 1))] + frac_digits(f % pow10(k - 1), k - 1)
    }
}

/// The decimal rendering of a micro-unit value: a sign for negatives, the
/// whole part, and — when the fractional part is not zero — a point and
/// the fractional digits with trailing zeros removed.
pub open spec fn micro_decimal_spec(v: int) -> Seq<char> {
    let mag = if v < 0 {
        -v
    } else {
        v
    };
    let sign: Seq<char> = if v < 0 {
        seq!['-']
    } else {
        Seq::empty()
    };
    let whole = mag / 1_000_000;
    let frac = mag % 1_000_000;
    if frac == 0 {
        sign + dec_digits(whole)
    } else {
        sign + dec_digits(whole) + seq!['.'] + frac_digits(frac, 6)
    }
}

/// Renders a micro-unit coefficient the way the task store expects a
/// decimal number on its command line.
pub fn micro_to_decimal(value: i64) -> (r: String)
    requires
        value != i64::MIN,
    ensures
        r@ == micro_decimal_spec(value as int),
{
    let neg = value < 0;
    let mag: u64 = if neg {
        (-value) as u64
    } else {
        value as u64
    };
    let whole = mag / 1_000_000;
    let mut frac = mag % 1_000_000;
    let mut s = String::new();
    proof {
        reveal_strlit("-");
        reveal_strlit(".");
    }
    if neg {
        s.append("-");
    }
    append_dec(&mut s, whole);
    if frac > 0 {
        s.append(".");
        let ghost frac0 = frac as int;
        let ghost head = s@;
        let mut k: u64 = 6;
        proof {
            assert(pow10(6) == 1_000_000) by {
                reveal_with_fuel(pow10, 8);
            }
            assert(s@ + frac_digits(frac as int, k as int) =~= head + frac_digits(frac0, 6));
        }
        while frac > 0
            invariant
                k <= 6,
                (frac as int) < pow10(k as int),
                s@ + frac_digits(frac as int, k as int) == head + frac_digits(frac0, 6),
            decreases k,
        {
            proof {
                if k == 0 {
                    crate::strutil::lemma_pow10_pos(0);
                    assert(false);
                }
                crate::strutil::lemma_pow10_pos(k as int - 1);
            }
            let div = pow10_x(k - 1);
            let hd = frac / div;
            proof {
                assert(hd <= 9) by (nonlinear_arith)
                    requires
                        (frac as int) < pow10(k as int),
                        pow10(k as int) == 10 * pow10(k as int - 1),
                        div as int == pow10(k as int - 1),
                        div >= 1,
                        hd == (frac as int) / (div as int),
                        frac >= 0,
                ;
                assert(frac_digits(frac as int, k as int) == seq![
                    digit_char(hd as int),
                ] + frac_digits((frac % div) as int, k as int - 1));
            }
            append_digit(&mut s, hd);
            proof {
                vstd::arithmetic::div_mod::lemma_mod_division_less_than_divisor(
                    frac as int,
                    div as int,
                );
                assert(s@ + frac_digits((frac % div) as int, k as int - 1) =~= head + frac_digits(
                    frac0,
                    6,
                ));
            }
            frac = frac % div;
            k = k - 1;
        }
        proof {
            assert(frac_digits(0, k as int) =~= Seq::<char>::empty());
            assert(s@ =~= head + frac_digits(frac0, 6));
        }
    }
    proof {
        assert(s@ =~= micro_decimal_spec(value as int));
    }
    s
}

/// The arguments of one export call: urgency coefficient overrides (in
/// micro-units, keyed by coefficient name) and filters.
#[derive(Debug)]
pub struct ExportBuilder {
    pub binary: String,
    pub urgency_coefficients: Vec<(String, i64)>,
    pub filters: Vec<String>,
}

impl ExportBuilder {
    /// Overrides one urgency coefficient (in micro-units) for the export,
    /// replacing any earlier override of the same name.
    pub fn with_urgency_coefficient(self, key: &str, value: i64) -> (r: Self)
        ensures
            r.binary == self.binary,
            r.filters == self.filters,
            ({
                let p = coefficient_find(self.urgency_coefficients@, key@);
                &&& r.urgency_coefficients@.len() == (if p < self.urgency_coefficients@.len() {
                    self.urgency_coefficients@.len()
                } else {
                    self.urgency_coefficients@.len() + 1
                })
                &&& forall|i: int|
                    0 <= i < self.urgency_coefficients@.len() && i != p
                        ==> r.urgency_coefficients@[i] == self.urgency_coefficients@[i]
                &&& r.urgency_coefficients@[p].0@ == key@
                &&& r.urgency_coefficients@[p].1 == value
            }),
    {
        let mut out = self;
        let n = out.urgency_coefficients.len();
        let mut i: usize = 0;
        while i < n
            invariant
                i <= n,
                n == out.urgency_coefficients@.len(),
                out.binary == self.binary,
                out.filters == self.filters,
                out.urgency_coefficients@ == self.urgency_coefficients@,
                forall|j: int| 0 <= j < i ==> out.urgency_coefficients@[j].0@ != key@,
            decreases n - i,
        {
            if string_eq(&out.urgency_coefficients[i].0, &key.to_owned()) {
                proof {
                    lemma_coefficient_find_is(out.urgency_coefficients@, key@, i as int);
                }
                out.urgency_coefficients.set(i, (key.to_owned(), value));
                return out;
            }
            i = i + 1;
        }
        proof {
            lemma_coefficient_find_is(out.urgency_coefficients@, key@, n as int);
        }
        out.urgency_coefficients.push((key.to_owned(), value));
        out
    }

    /// Adds one filter expression to the export.
    pub fn with_filter(self, filter: &str) -> (r: Self)
        ensures
            r.binary == self.binary,
            r.urgency_coefficients == self.urgency_coefficients,
            r.filters@.len() == self.filters@.len() + 1,
            forall|i: int| 0 <= i < self.filters@.len() ==> r.filters@[i] == self.filters@[i],
            r.filters@.last()@ == filter@,
    {
        let mut out = self;
        out.filters.push(filter.to_owned());
        out
    }
}

} // verus!
