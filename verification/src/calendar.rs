//! The proleptic Gregorian calendar, counted in days from 1970-01-01.

use vstd::arithmetic::div_mod::{
    lemma_fundamental_div_mod, lemma_fundamental_div_mod_converse, lemma_mod_bound,
};
use vstd::prelude::*;

verus! {

pub open spec fn is_leap(y: int) -> bool {
    y % 4 == 0 && (y % 100 != 0 || y % 400 == 0)
}

pub open spec fn year_len(y: int) -> int {
    if is_leap(y) {
        366
    } else {
        365
    }
}

pub open spec fn month_len(y: int, m: int) -> int {
    if m == 2 {
        if is_leap(y) {
            29
        } else {
            28
        }
    } else if m == 4 || m == 6 || m == 9 || m == 11 {
        30
    } else {
        31
    }
}

/// Leap years among the years `1..y`.
pub open spec fn leaps_before(y: int) -> int {
    (y - 1) / 4 - (y - 1) / 100 + (y - 1) / 400
}

/// Days from 1970-01-01 to January 1 of year `y`.
pub open spec fn days_before_year(y: int) -> int {
    365 * (y - 1970) + leaps_before(y) - leaps_before(1970)
}

/// Days from January 1 to the first day of month `m` in year `y`.
pub open spec fn days_before_month(y: int, m: int) -> int
    decreases m,
{
    if m <= 1 {
        0
    } else {
        days_before_month(y, m - 1) + month_len(y, m - 1)
    }
}

/// Whether `y-m-d` names a day of the calendar.
pub open spec fn is_date(y: int, m: int, d: int) -> bool {
    1 <= m <= 12 && 1 <= d <= month_len(y, m)
}

/// Days from 1970-01-01 to `y-m-d`.
pub open spec fn days_from_civil(y: int, m: int, d: int) -> int {
    days_before_year(y) + days_before_month(y, m) + d - 1
}

/// The date of day `z`, counted from 1970-01-01 (before it when
/// negative): the one date that `days_from_civil` maps to `z`.
pub open spec fn civil_from_days_spec(z: int) -> (int, int, int) {
    choose|ymd: (int, int, int)| is_date(ymd.0, ymd.1, ymd.2) && days_from_civil(ymd.0, ymd.1, ymd.2) == z
}

pub proof fn lemma_next_year(y: int)
    ensures
        days_before_year(y + 1) == days_before_year(y) + year_len(y),
{
    assert(leaps_before(y + 1) - leaps_before(y) == if is_leap(y) {
        1int
    } else {
        0int
    }) by {
        let a = y - 1;
        assert(y / 4 - a / 4 == if y % 4 == 0 {
            1int
        } else {
            0int
        });
        assert(y / 100 - a / 100 == if y % 100 == 0 {
            1int
        } else {
            0int
        });
        assert(y / 400 - a / 400 == if y % 400 == 0 {
            1int
        } else {
            0int
        });
        if y % 400 == 0 {
            assert(y % 100 == 0 && y % 4 == 0);
        }
        if y % 100 == 0 {
            assert(y % 4 == 0);
        }
    }
}

/// `(a + d * k) / d == a / d + k` for a positive divisor.
proof fn lemma_div_shift(a: int, d: int, k: int)
    requires
        d > 0,
    ensures
        (a + d * k) / d == a / d + k,
        (a + d * k) % d == a % d,
{
    lemma_fundamental_div_mod(a, d);
    lemma_mod_bound(a, d);
    assert(a + d * k == d * (a / d + k) + a % d) by (nonlinear_arith)
        requires
            a == d * (a / d) + a % d,
    ;
    lemma_fundamental_div_mod_converse(a + d * k, d, a / d + k, a % d);
}

/// Four hundred years are 146097 days, forward or back.
pub proof fn lemma_eras(y: int, k: int)
    ensures
        days_before_year(y + 400 * k) == days_before_year(y) + 146097 * k,
        is_leap(y + 400 * k) == is_leap(y),
{
    let a = y - 1;
    lemma_div_shift(a, 4, 100 * k);
    lemma_div_shift(a, 100, 4 * k);
    lemma_div_shift(a, 400, k);
    lemma_div_shift(y, 4, 100 * k);
    lemma_div_shift(y, 100, 4 * k);
    lemma_div_shift(y, 400, k);
    assert(a + 400 * k == a + 4 * (100 * k));
    assert(a + 400 * k == a + 100 * (4 * k));
    assert(y + 400 * k == y + 4 * (100 * k));
    assert(y + 400 * k == y + 100 * (4 * k));
}
pub proof fn lemma_months(y: int, m: int)
    requires
        1 <= m <= 13,
    ensures
        days_before_month(y, m) >= 0,
        m == 13 ==> days_before_month(y, m) == year_len(y),
        m <= 12 ==> days_before_month(y, m) + month_len(y, m) <= year_len(y),
    decreases m,
{
    if m > 1 {
        lemma_months(y, m - 1);
    }
    if m == 13 {
        reveal_with_fuel(days_before_month, 13);
    }
    if m <= 12 {
        lemma_months_upper(y, m);
    }
}

proof fn lemma_months_upper(y: int, m: int)
    requires
        1 <= m <= 12,
    ensures
        days_before_month(y, m) + month_len(y, m) <= year_len(y),
{
    reveal_with_fuel(days_before_month, 13);
}

/// Days before a later year's start are at least those of an earlier
/// year's end.
pub proof fn lemma_year_order(y1: int, y2: int)
    requires
        y1 < y2,
    ensures
        days_before_year(y1) + year_len(y1) <= days_before_year(y2),
    decreases y2 - y1,
{
    lemma_next_year(y1);
    if y2 > y1 + 1 {
        lemma_year_order(y1 + 1, y2);
        lemma_next_year(y1 + 1);
    }
}

pub proof fn lemma_month_order(y: int, m1: int, m2: int)
    requires
        1 <= m1 < m2 <= 12,
    ensures
        days_before_month(y, m1) + month_len(y, m1) <= days_before_month(y, m2),
    decreases m2 - m1,
{
    if m2 > m1 + 1 {
        lemma_month_order(y, m1, m2 - 1);
        lemma_months(y, m2 - 1);
    }
}

/// Different dates are different days.
pub proof fn lemma_civil_unique(y1: int, m1: int, d1: int, y2: int, m2: int, d2: int)
    requires
        is_date(y1, m1, d1),
        is_date(y2, m2, d2),
        days_from_civil(y1, m1, d1) == days_from_civil(y2, m2, d2),
    ensures
        y1 == y2 && m1 == m2 && d1 == d2,
{
    lemma_months(y1, m1);
    lemma_months(y2, m2);
    if y1 < y2 {
        lemma_year_order(y1, y2);
    } else if y2 < y1 {
        lemma_year_order(y2, y1);
    } else {
        if m1 < m2 {
            lemma_month_order(y1, m1, m2);
        } else if m2 < m1 {
            lemma_month_order(y1, m2, m1);
        }
    }
}

/// A day on or after 1970-01-01 falls in 1970 or later.
pub proof fn lemma_epoch_or_later(y: int, m: int, d: int)
    requires
        is_date(y, m, d),
        days_from_civil(y, m, d) >= 0,
    ensures
        y >= 1970,
{
    lemma_months(y, m);
    if y < 1970 {
        lemma_year_order(y, 1970);
    }
}

// ---------------------------------------------------------------------------
// The era arithmetic of the days-from-civil algorithm: days are counted
// from 0000-03-01 in eras of 400 years, and years run from March, so that
// February, with its leap day, comes last.
// ---------------------------------------------------------------------------

/// Day `doe` of an era: the year of the era that the closed formula gives
/// starts at or before it, and the next year starts after it.
pub proof fn lemma_year_of_era(doe: int)
    requires
        0 <= doe <= 146096,
    ensures
        ({
            let yoe = (doe - doe / 1460 + doe / 36524 - doe / 146096) / 365;
            let start = 365 * yoe + yoe / 4 - yoe / 100;
            &&& 0 <= yoe <= 399
            &&& start <= doe
            &&& doe - start <= 365
            &&& (doe - start == 365 ==> (yoe + 1) % 4 == 0 && ((yoe + 1) % 100 != 0 || yoe
                == 399))
        }),
{
}

/// March 1 of year `yoe` of era `e`, in days from 1970-01-01; and whether
/// the February that ends that year has a leap day.
pub proof fn lemma_march_first(e: int, yoe: int)
    requires
        0 <= yoe <= 399,
    ensures
        days_before_year(400 * e + yoe) + days_before_month(400 * e + yoe, 3) == 146097 * e + 365
            * yoe + yoe / 4 - yoe / 100 - 719468,
        is_leap(400 * e + yoe + 1) == ((yoe + 1) % 4 == 0 && ((yoe + 1) % 100 != 0 || yoe
            == 399)),
{
    lemma_eras(yoe, e);
    lemma_eras(yoe + 1, e);
    lemma_next_year(yoe);
    reveal_with_fuel(days_before_month, 3);
    assert(yoe + 400 * e == 400 * e + yoe);
    assert(yoe + 1 + 400 * e == 400 * e + yoe + 1);
}

/// Day `doy` of the year that starts on March 1 of `yy`: the month index
/// from March, and the date it names.
pub proof fn lemma_march_date(yy: int, doy: int)
    requires
        0 <= doy <= 365,
        doy == 365 ==> is_leap(yy + 1),
    ensures
        ({
            let mp = (5 * doy + 2) / 153;
            let d = doy - (153 * mp + 2) / 5 + 1;
            let m = if mp < 10 {
                mp + 3
            } else {
                mp - 9
            };
            let y = if m <= 2 {
                yy + 1
            } else {
                yy
            };
            &&& 0 <= mp <= 11
            &&& is_date(y, m, d)
            &&& days_from_civil(y, m, d) == days_before_year(yy) + days_before_month(yy, 3) + doy
        }),
{
    reveal_with_fuel(days_before_month, 13);
    lemma_next_year(yy);
    let mp = (5 * doy + 2) / 153;
    assert(0 <= mp <= 11);
    if mp == 0 {
    } else if mp == 1 {
    } else if mp == 2 {
    } else if mp == 3 {
    } else if mp == 4 {
    } else if mp == 5 {
    } else if mp == 6 {
    } else if mp == 7 {
    } else if mp == 8 {
    } else if mp == 9 {
    } else if mp == 10 {
    } else {
    }
}

/// Every day has a date: the era arithmetic, carried out on integers,
/// names one.
pub proof fn lemma_civil_exists(z: int)
    ensures
        is_date(civil_from_days_spec(z).0, civil_from_days_spec(z).1, civil_from_days_spec(z).2),
        days_from_civil(civil_from_days_spec(z).0, civil_from_days_spec(z).1, civil_from_days_spec(z).2)
            == z,
{
    let zz = z + 719468;
    let era = zz / 146097;
    let doe = zz % 146097;
    lemma_fundamental_div_mod(zz, 146097);
    lemma_mod_bound(zz, 146097);
    lemma_year_of_era(doe);
    let yoe = (doe - doe / 1460 + doe / 36524 - doe / 146096) / 365;
    let doy = doe - (365 * yoe + yoe / 4 - yoe / 100);
    lemma_march_first(era, yoe);
    let yy = 400 * era + yoe;
    lemma_march_date(yy, doy);
    let mp = (5 * doy + 2) / 153;
    let d = doy - (153 * mp + 2) / 5 + 1;
    let m = if mp < 10 {
        mp + 3
    } else {
        mp - 9
    };
    let y = if m <= 2 {
        yy + 1
    } else {
        yy
    };
    let t = (y, m, d);
    assert(is_date(t.0, t.1, t.2) && days_from_civil(t.0, t.1, t.2) == z);
}

/// `(y1, m1, d1)` comes before `(y2, m2, d2)`: by year, then month, then day.
pub open spec fn date_before(a: (int, int, int), b: (int, int, int)) -> bool {
    a.0 < b.0 || (a.0 == b.0 && (a.1 < b.1 || (a.1 == b.1 && a.2 < b.2)))
}

/// Law: a later day has a later date.
pub proof fn lemma_dates_in_order(z1: int, z2: int)
    requires
        z1 < z2,
    ensures
        date_before(civil_from_days_spec(z1), civil_from_days_spec(z2)),
{
    lemma_civil_exists(z1);
    lemma_civil_exists(z2);
    let (y1, m1, d1) = civil_from_days_spec(z1);
    let (y2, m2, d2) = civil_from_days_spec(z2);
    lemma_months(y1, m1);
    lemma_months(y2, m2);
    if y2 < y1 {
        lemma_year_order(y2, y1);
    } else if y2 == y1 && m2 < m1 {
        lemma_month_order(y1, m2, m1);
    }
}

/// Days from 1970-01-01 up to 9999-12-31 have dates in the years 1970 to
/// 9999.
pub proof fn lemma_four_digit_year(z: int)
    requires
        0 <= z < 2932897,
    ensures
        1970 <= civil_from_days_spec(z).0 <= 9999,
{
    lemma_civil_exists(z);
    let (y, m, d) = civil_from_days_spec(z);
    lemma_epoch_or_later(y, m, d);
    lemma_months(y, m);
    assert(days_before_year(10000) == 2932897);
    if y > 10000 {
        lemma_year_order(10000, y);
    }
}

/// The date after `y-m-d`: the next day of the month, else the first of the
/// next month, else January 1 of the next year.
pub open spec fn next_date(ymd: (int, int, int)) -> (int, int, int) {
    let (y, m, d) = ymd;
    if d < month_len(y, m) {
        (y, m, d + 1)
    } else if m < 12 {
        (y, m + 1, 1)
    } else {
        (y + 1, 1, 1)
    }
}

/// Law: the date of day `z + 1` is the date after the date of day `z`.
pub proof fn lemma_next_day(z: int)
    ensures
        civil_from_days_spec(z + 1) == next_date(civil_from_days_spec(z)),
{
    lemma_civil_exists(z);
    lemma_civil_exists(z + 1);
    let (y, m, d) = civil_from_days_spec(z);
    let n = next_date((y, m, d));
    lemma_months(y, m);
    if d < month_len(y, m) {
    } else if m < 12 {
        lemma_months(y, m + 1);
        assert(days_before_month(y, m + 1) == days_before_month(y, m) + month_len(y, m));
    } else {
        lemma_next_year(y);
        lemma_months(y, 13);
        assert(days_before_month(y, 13) == days_before_month(y, 12) + month_len(y, 12));
        assert(days_before_month(y + 1, 1) == 0);
    }
    assert(is_date(n.0, n.1, n.2) && days_from_civil(n.0, n.1, n.2) == z + 1);
    let w = civil_from_days_spec(z + 1);
    lemma_civil_unique(w.0, w.1, w.2, n.0, n.1, n.2);
}

} // verus!
