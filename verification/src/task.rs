//! Tasks and the urgency model.
//!
//! A task's urgency at an instant combines its stored base urgency, a
//! due-date component and an age component, each weighted by a configured
//! coefficient. All scores are fixed-point numbers in micro-units
//! (`1_000_000` stands for `1.0`).

use crate::config::Config;
use vstd::prelude::*;

verus! {

/// Largest instant (in seconds) the urgency model accepts; about 126
/// million years from the epoch, far beyond any calendar source.
pub const MAX_INSTANT: i64 = 4_000_000_000_000_000;

/// Largest coefficient magnitude (in micro-units) the urgency model
/// accepts: one million in real units.
pub const MAX_COEFFICIENT: i64 = 1_000_000_000_000;

/// The status of a task in the task store.
#[derive(Debug, Clone, Copy, PartialEq, Eq, Structural)]
pub enum Status {
    Pending,
    Completed,
    Deleted,
    Recurring,
}

/// A work item, as exported by the task store. Instants are seconds since
/// the epoch; `estimate` is a duration in seconds; `urgency` is the stored
/// base urgency in micro-units.
#[derive(Debug)]
pub struct Task {
    pub uuid: String,
    pub description: String,
    pub urgency: i64,
    pub status: Status,
    pub entry: i64,
    pub wait: Option<i64>,
    pub due: Option<i64>,
    pub target: Option<i64>,
    pub estimate: Option<i64>,
    pub depends: Vec<String>,
    pub tags: Vec<String>,
}

/// Whether an instant is within the range the urgency model accepts.
pub open spec fn instant_ok(t: int) -> bool {
    -(MAX_INSTANT as int) <= t <= MAX_INSTANT as int
}

/// `instant_ok` lifted to an optional instant.
pub open spec fn opt_instant_ok(o: Option<i64>) -> bool {
    match o {
        None => true,
        Some(x) => instant_ok(x as int),
    }
}

/// Whether all of a task's instants are within range.
pub open spec fn task_times_ok(t: Task) -> bool {
    &&& instant_ok(t.entry as int)
    &&& opt_instant_ok(t.wait)
    &&& opt_instant_ok(t.due)
    &&& opt_instant_ok(t.target)
}

/// Whether a configuration is within the range the urgency model accepts:
/// coefficient magnitudes at most `MAX_COEFFICIENT`, and a non-negative age
/// window.
pub open spec fn config_ok(c: Config) -> bool {
    &&& -(MAX_COEFFICIENT as int) <= c.urgency_due_coefficient as int <= MAX_COEFFICIENT as int
    &&& -(MAX_COEFFICIENT as int) <= c.urgency_age_coefficient as int <= MAX_COEFFICIENT as int
    &&& 0 <= c.urgency_age_max as int <= MAX_COEFFICIENT as int
}

/// Whether the task is available at `when`: its wait date, if any, has
/// passed.
pub open spec fn available_at_spec(t: Task, when: int) -> bool {
    match t.wait {
        None => true,
        Some(w) => w <= when,
    }
}

/// The single target instant the due component measures against: the
/// earlier of the due and target dates when both are present, either one
/// alone, and otherwise a synthetic target four weeks after entry or one
/// week from now, whichever is later.
pub open spec fn resolved_target(when: int, t: Task) -> int {
    match (t.due, t.target) {
        (Some(d), None) => d as int,
        (None, Some(g)) => g as int,
        (Some(d), Some(g)) => if d <= g {
            d as int
        } else {
            g as int
        },
        (None, None) => {
            let a = t.entry + 4 * 7 * 86400;
            let b = when + 7 * 86400;
            if a >= b {
                a
            } else {
                b
            }
        },
    }
}

/// The due component of urgency, in micro-units: `1.0` from seven days
/// overdue on, `0.2` before fourteen days early, and a linear ramp over the
/// twenty-one days in between (rounded down to a micro-unit).
pub open spec fn due_component_micro(when: int, t: Task) -> int {
    let overdue = when - resolved_target(when, t);
    if overdue >= 7 * 86400 {
        1_000_000
    } else if overdue >= -14 * 86400 {
        200_000 + (overdue + 14 * 86400) * 800_000 / (1_814_400 as int)
    } else {
        200_000
    }
}

/// The age component of urgency, in micro-units: a linear ramp from `0.0`
/// at entry to `1.0` at `age_max` days (rounded down to a micro-unit), and
/// `1.0` whenever the window is zero or exceeded.
pub open spec fn age_component_micro(when: int, entry: int, age_max: int) -> int {
    let age_secs = when - entry;
    if age_max == 0 || age_secs * 1_000_000 > age_max * 86400 {
        1_000_000
    } else {
        age_secs * 1_000_000_000_000 / (age_max * 86400)
    }
}

/// A task's urgency at `when`, in micro-units: base urgency plus the
/// weighted due and age components.
pub open spec fn urgency_at_micro(t: Task, when: int, c: Config) -> int {
    t.urgency + due_component_micro(when, t) * c.urgency_due_coefficient / 1_000_000
        + age_component_micro(when, t.entry as int, c.urgency_age_max as int)
        * c.urgency_age_coefficient / 1_000_000
}

/// Division with a positive divisor stays between zero and the dividend.
proof fn lemma_div_range(n: int, d: int)
    requires
        d >= 1,
    ensures
        n >= 0 ==> 0 <= n / d <= n,
        n < 0 ==> n <= n / d <= 0,
{
    vstd::arithmetic::div_mod::lemma_fundamental_div_mod(n, d);
    vstd::arithmetic::div_mod::lemma_mod_division_less_than_divisor(n, d);
    let q = n / d;
    let r = n % d;
    assert(n >= 0 ==> 0 <= q <= n) by (nonlinear_arith)
        requires
            n == d * q + r,
            0 <= r < d,
            d >= 1,
    ;
    assert(n < 0 ==> n <= q <= 0) by (nonlinear_arith)
        requires
            n == d * q + r,
            0 <= r < d,
            d >= 1,
    ;
}

/// Euclidean division by a positive divisor; agrees with mathematical
/// integer division.
fn div_euclid_pos(n: i128, d: i128) -> (q: i128)
    requires
        d >= 1,
    ensures
        q == n as int / d as int,
{
    proof {
        lemma_div_range(n as int, d as int);
    }
    match n.checked_div_euclid(d) {
        Some(q) => q,
        None => {
            proof {
                assert(false);
            }
            0
        },
    }
}

impl Task {
    /// Whether the task is available at `when`: its wait date, if any, has
    /// passed.
    pub fn available_at(&self, when: i64) -> (r: bool)
        ensures
            r == available_at_spec(*self, when as int),
    {
        match self.wait {
            None => true,
            Some(wait) => wait <= when,
        }
    }

    /// The task's urgency at `when` under `config`, in micro-units.
    pub fn urgency_at(&self, when: i64, config: &Config) -> (r: i128)
        requires
            task_times_ok(*self),
            instant_ok(when as int),
            config_ok(*config),
        ensures
            r == urgency_at_micro(*self, when as int, *config),
    {
        let due = self.base_due_urgency_at(when);
        let age = self.base_age_urgency_at(when, config);
        proof {
            assert((due as int) * (config.urgency_due_coefficient as int)
                <= 1_000_000_000_000_000_000
                && (due as int) * (config.urgency_due_coefficient as int)
                >= -1_000_000_000_000_000_000) by (nonlinear_arith)
                requires
                    200_000 <= due as int <= 1_000_000,
                    -1_000_000_000_000 <= config.urgency_due_coefficient as int
                        <= 1_000_000_000_000,
            ;
            assert((age as int) * (config.urgency_age_coefficient as int)
                <= 0x10000000000000000000000000000000
                && (age as int) * (config.urgency_age_coefficient as int)
                >= -0x10000000000000000000000000000000) by (nonlinear_arith)
                requires
                    -100_000_000_000_000_000_000_000 <= age as int <= 1_000_000,
                    -1_000_000_000_000 <= config.urgency_age_coefficient as int
                        <= 1_000_000_000_000,
            ;
        }
        let due_part = div_euclid_pos(
            (due as i128) * (config.urgency_due_coefficient as i128),
            1_000_000,
        );
        let age_part = div_euclid_pos(age * (config.urgency_age_coefficient as i128), 1_000_000);
        proof {
            lemma_div_range((due as int) * (config.urgency_due_coefficient as int), 1_000_000);
            lemma_div_range((age as int) * (config.urgency_age_coefficient as int), 1_000_000);
        }
        self.urgency as i128 + due_part + age_part
    }

    /// The due component of the task's urgency at `when`, in micro-units.
    fn base_due_urgency_at(&self, when: i64) -> (r: i64)
        requires
            task_times_ok(*self),
            instant_ok(when as int),
        ensures
            r == due_component_micro(when as int, *self),
            200_000 <= r <= 1_000_000,
    {
        let target: i128 = match (self.due, self.target) {
            (Some(d), None) => d as i128,
            (None, Some(g)) => g as i128,
            (Some(d), Some(g)) => if d <= g {
                d as i128
            } else {
                g as i128
            },
            (None, None) => {
                let a = self.entry as i128 + 2_419_200;
                let b = when as i128 + 604_800;
                if a >= b {
                    a
                } else {
                    b
                }
            },
        };
        let overdue = when as i128 - target;
        if overdue >= 604_800 {
            1_000_000
        } else if overdue >= -1_209_600 {
            let num = (overdue + 1_209_600) * 800_000;
            let q = div_euclid_pos(num, 1_814_400);
            proof {
                lemma_div_range(num as int, 1_814_400);
                vstd::arithmetic::div_mod::lemma_multiply_divide_lt(num as int, 1_814_400, 800_000);
            }
            200_000 + (q as i64)
        } else {
            200_000
        }
    }

    /// The age component of the task's urgency at `when`, in micro-units.
    fn base_age_urgency_at(&self, when: i64, config: &Config) -> (r: i128)
        requires
            instant_ok(self.entry as int),
            instant_ok(when as int),
            config_ok(*config),
        ensures
            r == age_component_micro(when as int, self.entry as int, config.urgency_age_max as int),
            -100_000_000_000_000_000_000_000 <= r <= 1_000_000,
    {
        let age_secs = when as i128 - self.entry as i128;
        let age_max = config.urgency_age_max as i128;
        if age_max == 0 {
            return 1_000_000;
        }
        let lhs = age_secs * 1_000_000;
        let den = age_max * 86400;
        if lhs > den {
            return 1_000_000;
        }
        let num = age_secs * 1_000_000_000_000;
        let q = div_euclid_pos(num, den);
        proof {
            let numi = num as int;
            let deni = den as int;
            let qi = numi / deni;
            vstd::arithmetic::div_mod::lemma_fundamental_div_mod(numi, deni);
            vstd::arithmetic::div_mod::lemma_mod_division_less_than_divisor(numi, deni);
            assert(qi <= 1_000_000 && qi >= -100_000_000_000_000_000_000_000) by (nonlinear_arith)
                requires
                    numi == deni * qi + (numi % deni),
                    0 <= numi % deni < deni,
                    86400 <= deni <= 86_400_000_000_000_000,
                    -8_000_000_000_000_000_000_000_000_000 <= numi,
                    numi <= deni * 1_000_000,
            ;
        }
        q
    }
}

} // verus!
