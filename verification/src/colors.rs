//! Calendar dates of Apple timestamps: days since 1970-01-01 → the
//! proleptic Gregorian date, and a millisecond timestamp → its ISO 8601
//! UTC text.
use vstd::prelude::*;
use crate::text_util::{push_char, push_str, chars_of, dec, push_decimal};

verus! {

/// A leap year of the proleptic Gregorian calendar.
pub open spec fn is_leap(y: int) -> bool {
    y % 4 == 0 && (y % 100 != 0 || y % 400 == 0)
}

/// Days in month `m` (1–12) of year `y`.
pub open spec fn month_len(y: int, m: int) -> int {
    if m == 2 {
        if is_leap(y) {
            29
        } else {
            28
        }
    } else if m == 4 || m == 6 || m == 9 || m == 11 {
        30
    } else {
        31
    }
}

/// Days of the months before month `m` in a common year.
pub open spec fn cum_days(m: int) -> int {
    if m <= 1 {
        0
    } else if m == 2 {
        31
    } else if m == 3 {
        59
    } else if m == 4 {
        90
    } else if m == 5 {
        120
    } else if m == 6 {
        151
    } else if m == 7 {
        181
    } else if m == 8 {
        212
    } else if m == 9 {
        243
    } else if m == 10 {
        273
    } else if m == 11 {
        304
    } else {
        334
    }
}

/// Days of year `y` before month `m`.
pub open spec fn days_before_month(y: int, m: int) -> int {
    cum_days(m) + if m > 2 && is_leap(y) {
        1int
    } else {
        0int
    }
}

/// Leap years before year `y`, counted from year 1 (negative below it).
pub open spec fn leaps_before(y: int) -> int {
    (y - 1) / 4 - (y - 1) / 100 + (y - 1) / 400
}

/// The day number of a date: days since 1970-01-01.
pub open spec fn days_from_civil(y: int, m: int, d: int) -> int {
    365 * (y - 1970) + leaps_before(y) - leaps_before(1970) + days_before_month(y, m) + d - 1
}

/// A real date.
pub open spec fn valid_date(y: int, m: int, d: int) -> bool {
    1 <= m <= 12 && 1 <= d <= month_len(y, m)
}

/// First day of March-based year `y` within a 400-year era.
spec fn era_year_start(y: int) -> int {
    365 * y + y / 4 - y / 100
}

/// March-based year `yoe` of an era ends with a February 29.
spec fn march_leap(yoe: int) -> bool {
    ((yoe + 1) % 4 == 0 && (yoe + 1) % 100 != 0) || yoe == 399
}

proof fn lemma_year_of_era(doe: int)
    requires
        0 <= doe <= 146096,
    ensures
        ({
            let yoe = (doe - doe / 1460 + doe / 36524 - doe / 146096) / 365;
            &&& 0 <= yoe <= 399
            &&& era_year_start(yoe) <= doe
            &&& doe - era_year_start(yoe) <= 364 + if march_leap(yoe) {
                1int
            } else {
                0int
            }
        }),
{
    if doe == 146096 {
        assert(doe / 1460 == 100);
        assert(doe / 36524 == 4);
        assert(doe / 146096 == 1);
        assert((doe - 100 + 4 - 1) / 365 == 399);
        assert(era_year_start(399) == 145731);
    } else {
        let c = doe / 36524;
        assert(0 <= c <= 3);
        let r = doe - 36524 * c;
        let b = r / 1461;
        let s = r % 1461;
        assert(r == 1461 * b + s);
        assert(0 <= b <= 24);
        assert(b == 24 ==> s <= 1459);
        let e: int = if 24 * c + b + s >= 1460 {
            1
        } else {
            0
        };
        assert(doe == 1460 * (25 * c + b) + (24 * c + b + s));
        assert(doe / 1460 == 25 * c + b + e);
        assert(doe / 36524 == c);
        assert(doe / 146096 == 0);
        let n = doe - doe / 1460 + doe / 36524 - doe / 146096;
        assert(n == 36500 * c + 1460 * b + s - e);
        assert(s - e >= 0);
        let t = (s - e) / 365;
        assert(0 <= t <= 3);
        assert(n / 365 == 100 * c + 4 * b + t);
        let yoe = 100 * c + 4 * b + t;
        assert(yoe / 4 == 25 * c + b);
        assert(yoe / 100 == c);
        assert(era_year_start(yoe) == 36524 * c + 1461 * b + 365 * t);
        if s - 365 * t == 365 {
            assert(t == 3 && e == 1);
            assert((yoe + 1) % 4 == 0);
            assert((yoe + 1) % 100 != 0);
        }
    }
}

/// March-based month `mp` (0 = March … 11 = February) and day `d` of a
/// day `doy` of a March-based year.
proof fn lemma_month_of_year(doy: int)
    requires
        0 <= doy <= 365,
    ensures
        ({
            let mp = (5 * doy + 2) / 153;
            let d = doy - (153 * mp + 2) / 5 + 1;
            &&& 0 <= mp <= 11
            &&& 1 <= d
            &&& mp < 11 ==> d <= month_len(0, if mp < 10 {
                mp + 3
            } else {
                mp - 9
            })
            &&& mp == 11 ==> d <= 28 || doy == 365
            &&& mp < 10 ==> (153 * mp + 2) / 5 == cum_days(mp + 3) - 59
            &&& mp >= 10 ==> (153 * mp + 2) / 5 == cum_days(mp - 9) + 306
        }),
{
    if doy < 31 {
        assert((5 * doy + 2) / 153 == 0);
    } else if doy < 61 {
        assert((5 * doy + 2) / 153 == 1);
    } else if doy < 92 {
        assert((5 * doy + 2) / 153 == 2);
    } else if doy < 122 {
        assert((5 * doy + 2) / 153 == 3);
    } else if doy < 153 {
        assert((5 * doy + 2) / 153 == 4);
    } else if doy < 184 {
        assert((5 * doy + 2) / 153 == 5);
    } else if doy < 214 {
        assert((5 * doy + 2) / 153 == 6);
    } else if doy < 245 {
        assert((5 * doy + 2) / 153 == 7);
    } else if doy < 275 {
        assert((5 * doy + 2) / 153 == 8);
    } else if doy < 306 {
        assert((5 * doy + 2) / 153 == 9);
    } else if doy < 337 {
        assert((5 * doy + 2) / 153 == 10);
    } else {
        assert((5 * doy + 2) / 153 == 11);
    }
}

/// Leap days before a year within an era, counted two ways.
proof fn lemma_leaps_in_era(yoe: int)
    requires
        0 <= yoe <= 399,
    ensures
        leaps_before(yoe) + (if is_leap(yoe) {
            1int
        } else {
            0int
        }) == yoe / 4 - yoe / 100,
{
    let c = yoe / 100;
    let b = (yoe % 100) / 4;
    let t = yoe % 4;
    assert(yoe == 100 * c + 4 * b + t);
    if yoe >= 1 {
        assert((yoe - 1) / 400 == 0);
    }
}

/// Adding whole multiples of `d` moves the quotient and keeps the
/// remainder.
proof fn lemma_div_shift(a: int, n: int, d: int)
    requires
        d > 0,
    ensures
        (a + d * n) / d == a / d + n,
        (a + d * n) % d == a % d,
{
    vstd::arithmetic::div_mod::lemma_fundamental_div_mod(a, d);
    assert(a + d * n == (a / d + n) * d + a % d) by (nonlinear_arith)
        requires
            a == d * (a / d) + a % d,
    ;
    vstd::arithmetic::div_mod::lemma_fundamental_div_mod_converse(a + d * n, d, a / d + n, a % d);
}

/// Leap days before a year, shifted by whole eras.
proof fn lemma_leaps_shift(era: int, yoe: int)
    requires
        0 <= yoe <= 399,
    ensures
        leaps_before(400 * era + yoe) == 97 * era + leaps_before(yoe),
        leaps_before(400 * era + yoe + 1) == 97 * era + yoe / 4 - yoe / 100,
        is_leap(400 * era + yoe) == is_leap(yoe),
        is_leap(400 * era + yoe + 1) == march_leap(yoe),
{
    lemma_div_shift(yoe - 1, 100 * era, 4);
    lemma_div_shift(yoe - 1, 4 * era, 100);
    lemma_div_shift(yoe - 1, era, 400);
    lemma_div_shift(yoe, 100 * era, 4);
    lemma_div_shift(yoe, 4 * era, 100);
    lemma_div_shift(yoe, era, 400);
    lemma_div_shift(yoe + 1, 100 * era, 4);
    lemma_div_shift(yoe + 1, 4 * era, 100);
    lemma_div_shift(yoe + 1, era, 400);
    assert(4 * (100 * era) == 400 * era);
    assert(100 * (4 * era) == 400 * era);
    assert(yoe / 400 == 0);
    assert((yoe + 1) % 400 == 0 <==> yoe == 399);
}

/// Floor division and its remainder.
fn floor_divmod(a: i64, b: i64) -> (r: (i64, i64))
    requires
        b > 0,
    ensures
        r.0 == a / b,
        r.1 == a % b,
{
    if a >= 0 {
        let q = ((a as u64) / (b as u64)) as i64;
        let m = ((a as u64) % (b as u64)) as i64;
        assert(a == b * q + m && 0 <= m < b) by (nonlinear_arith)
            requires
                a >= 0,
                b > 0,
                q == (a as u64) / (b as u64),
                m == (a as u64) % (b as u64),
        ;
        proof {
            vstd::arithmetic::div_mod::lemma_fundamental_div_mod_converse(a as int, b as int, q as int, m as int);
        }
        (q, m)
    } else {
        let n = (-(a + 1)) as u64;
        let bq = (n / (b as u64)) as i64;
        let br = (n % (b as u64)) as i64;
        let q = -bq - 1;
        let m = b - 1 - br;
        assert(a == b * q + m && 0 <= m < b) by (nonlinear_arith)
            requires
                a < 0,
                b > 0,
                n == -(a + 1),
                bq == n / (b as u64),
                br == n % (b as u64),
                q == -bq - 1,
                m == b - 1 - br,
        ;
        proof {
            vstd::arithmetic::div_mod::lemma_fundamental_div_mod_converse(a as int, b as int, q as int, m as int);
        }
        (q, m)
    }
}

/// Howard Hinnant's days-to-civil algorithm: the date of day `z` (days
/// since 1970-01-01) in the proleptic Gregorian calendar.
pub fn civil_from_days(z: i64) -> (r: (i64, u32, u32))
    requires
        z <= i64::MAX - 719_468,
    ensures
        valid_date(r.0 as int, r.1 as int, r.2 as int),
        days_from_civil(r.0 as int, r.1 as int, r.2 as int) == z,
        -25_300_000_000_000_000 <= r.0 <= 25_300_000_000_000_000,
{
    let zp = z + 719_468;
    let (era, doe) = floor_divmod(zp, 146_097);
    proof {
        lemma_year_of_era(doe as int);
        assert(-63_200_000_000_000 <= era <= 63_200_000_000_000) by (nonlinear_arith)
            requires
                zp == 146097 * era + doe,
                0 <= doe < 146097,
                i64::MIN <= zp <= i64::MAX,
        ;
    }
    let yoe = (doe - doe / 1460 + doe / 36524 - doe / 146_096) / 365;
    let y = yoe + era * 400;
    let doy = doe - (365 * yoe + yoe / 4 - yoe / 100);
    proof {
        lemma_month_of_year(doy as int);
        lemma_leaps_shift(era as int, yoe as int);
        lemma_leaps_in_era(yoe as int);
    }
    let mp = (5 * doy + 2) / 153;
    let d = (doy - (153 * mp + 2) / 5 + 1) as u32;
    let m = if mp < 10 {
        mp + 3
    } else {
        mp - 9
    } as u32;
    let year = if m <= 2 {
        y + 1
    } else {
        y
    };
    proof {
        assert(leaps_before(1970) == 477);
        assert(zp == 146097 * era + doe);
    }
    (year, m, d)
}

/// A number written with at least `w` digits, zero-padded.
pub open spec fn padded(n: nat, w: nat) -> Seq<char> {
    Seq::new((if dec(n).len() < w {
        w - dec(n).len()
    } else {
        0
    }) as nat, |i: int| '0') + dec(n)
}

/// A year as `{:04}` writes it: four digits at least, a `-` counting
/// towards the width.
pub open spec fn year_text(y: int) -> Seq<char> {
    if y >= 0 {
        padded(y as nat, 4)
    } else {
        seq!['-'] + padded((-y) as nat, 3)
    }
}

fn push_padded(s: &mut String, n: u64, w: usize)
    ensures
        final(s)@ == old(s)@ + padded(n as nat, w as nat),
{
    let mut digits = String::new();
    push_decimal(&mut digits, n);
    let len = chars_of(digits.as_str()).len();
    let mut i = len;
    let ghost start = s@;
    assert(Seq::new(0nat, |k: int| '0') =~= Seq::<char>::empty());
    while i < w
        invariant
            len <= i,
            i <= w || i == len,
            s@ == start + Seq::new((i - len) as nat, |k: int| '0'),
        decreases w - i,
    {
        push_char(s, '0');
        assert(s@ =~= start + Seq::new((i + 1 - len) as nat, |k: int| '0'));
        i = i + 1;
    }
    push_str(s, digits.as_str());
    assert(s@ =~= start + padded(n as nat, w as nat));
}

/// Leap days added by one more year.
proof fn lemma_leaps_step(y: int)
    ensures
        leaps_before(y + 1) == leaps_before(y) + if is_leap(y) {
            1int
        } else {
            0int
        },
{
    let q4 = (y - 1) / 4;
    let q100 = (y - 1) / 100;
    let q400 = (y - 1) / 400;
    assert(y / 4 == q4 + if y % 4 == 0 {
        1int
    } else {
        0int
    });
    assert(y / 100 == q100 + if y % 100 == 0 {
        1int
    } else {
        0int
    });
    assert(y / 400 == q400 + if y % 400 == 0 {
        1int
    } else {
        0int
    });
    assert(y % 100 == 0 ==> y % 4 == 0);
    assert(y % 400 == 0 ==> y % 100 == 0);
}

/// Days in year `y`.
pub open spec fn year_len(y: int) -> int {
    if is_leap(y) {
        366
    } else {
        365
    }
}

proof fn lemma_months(y: int, m: int)
    requires
        1 <= m <= 12,
    ensures
        m < 12 ==> days_before_month(y, m + 1) == days_before_month(y, m) + month_len(y, m),
        m == 12 ==> days_before_month(y, m) + month_len(y, m) == year_len(y),
        days_before_month(y, 1) == 0,
{
}

proof fn lemma_month_order(y: int, m1: int, m2: int)
    requires
        1 <= m1 < m2 <= 12,
    ensures
        days_before_month(y, m1) + month_len(y, m1) <= days_before_month(y, m2),
    decreases m2 - m1,
{
    lemma_months(y, m1);
    if m1 + 1 < m2 {
        lemma_month_order(y, m1 + 1, m2);
        lemma_months(y, m1 + 1);
    }
}

proof fn lemma_year_order(y1: int, y2: int)
    requires
        y1 < y2,
    ensures
        days_from_civil(y1, 1, 1) + year_len(y1) <= days_from_civil(y2, 1, 1),
    decreases y2 - y1,
{
    lemma_leaps_step(y1);
    if y1 + 1 < y2 {
        lemma_year_order(y1 + 1, y2);
    }
}

proof fn lemma_within_year(y: int, m: int, d: int)
    requires
        valid_date(y, m, d),
    ensures
        days_from_civil(y, 1, 1) <= days_from_civil(y, m, d) < days_from_civil(y, 1, 1) + year_len(y),
{
    lemma_months(y, 12);
    if m < 12 {
        lemma_month_order(y, m, 12);
    }
}

/// A day number belongs to one date only: distinct real dates have
/// distinct day numbers.
pub proof fn lemma_days_from_civil_injective(y1: int, m1: int, d1: int, y2: int, m2: int, d2: int)
    requires
        valid_date(y1, m1, d1),
        valid_date(y2, m2, d2),
        days_from_civil(y1, m1, d1) == days_from_civil(y2, m2, d2),
    ensures
        y1 == y2 && m1 == m2 && d1 == d2,
{
    lemma_within_year(y1, m1, d1);
    lemma_within_year(y2, m2, d2);
    if y1 < y2 {
        lemma_year_order(y1, y2);
    } else if y2 < y1 {
        lemma_year_order(y2, y1);
    } else if m1 < m2 {
        lemma_month_order(y1, m1, m2);
    } else if m2 < m1 {
        lemma_month_order(y1, m2, m1);
    }
}

/// `t` is the real date with day number `z`.
pub open spec fn is_date_of(t: (int, int, int), z: int) -> bool {
    valid_date(t.0, t.1, t.2) && days_from_civil(t.0, t.1, t.2) == z
}

/// The date of day number `z`.
pub open spec fn civil_date(z: int) -> (int, int, int) {
    choose|t: (int, int, int)| is_date_of(t, z)
}

/// `civil_date` names the date that `civil_from_days` computes.
proof fn lemma_civil_date(z: int, y: int, m: int, d: int)
    requires
        valid_date(y, m, d),
        days_from_civil(y, m, d) == z,
    ensures
        civil_date(z) == (y, m, d),
{
    assert(is_date_of((y, m, d), z));
    let t = civil_date(z);
    assert(is_date_of(t, z));
    lemma_days_from_civil_injective(t.0, t.1, t.2, y, m, d);
}

/// `YYYY-MM-DD`.
pub open spec fn date_text(y: int, mo: int, d: int) -> Seq<char> {
    year_text(y) + seq!['-'] + padded(mo as nat, 2) + seq!['-'] + padded(d as nat, 2)
}

/// `THH:MM:SS` for second `sod` of a day.
pub open spec fn hms_text(sod: int) -> Seq<char> {
    seq!['T'] + padded((sod / 3600) as nat, 2) + seq![':'] + padded(((sod % 3600) / 60) as nat, 2)
        + seq![':'] + padded((sod % 60) as nat, 2)
}

/// `.mmm` when there are milliseconds, then `Z`.
pub open spec fn ms_text(millis: int) -> Seq<char> {
    (if millis > 0 {
        seq!['.'] + padded(millis as nat, 3)
    } else {
        Seq::empty()
    }) + seq!['Z']
}

/// `THH:MM:SS[.mmm]Z` for second `sod` of a day, the milliseconds only when
/// not zero.
pub open spec fn clock_text(sod: int, millis: int) -> Seq<char> {
    hms_text(sod) + ms_text(millis)
}

/// The ISO 8601 UTC text of a timestamp in milliseconds since
/// 1970-01-01T00:00:00Z: `YYYY-MM-DDTHH:MM:SS[.mmm]Z`, the milliseconds
/// only when not zero.
pub open spec fn iso_spec(ms: int) -> Seq<char> {
    let secs = ms / 1000;
    let days = secs / 86400;
    let (y, mo, d) = civil_date(days);
    date_text(y, mo, d) + clock_text(secs % 86400, ms % 1000)
}

fn push_date(out: &mut String, y: i64, mo: u32, d: u32)
    requires
        y > i64::MIN,
    ensures
        final(out)@ == old(out)@ + date_text(y as int, mo as int, d as int),
{
    if y >= 0 {
        push_padded(out, y as u64, 4);
    } else {
        push_char(out, '-');
        push_padded(out, (-y) as u64, 3);
    }
    push_char(out, '-');
    push_padded(out, mo as u64, 2);
    push_char(out, '-');
    push_padded(out, d as u64, 2);
    assert(final(out)@ =~= old(out)@ + date_text(y as int, mo as int, d as int));
}

fn push_hms(out: &mut String, sod: i64)
    requires
        0 <= sod < 86400,
    ensures
        final(out)@ == old(out)@ + hms_text(sod as int),
{
    let h = sod / 3600;
    let mi = (sod % 3600) / 60;
    let sec = sod % 60;
    push_char(out, 'T');
    push_padded(out, h as u64, 2);
    push_char(out, ':');
    push_padded(out, mi as u64, 2);
    push_char(out, ':');
    push_padded(out, sec as u64, 2);
    assert(final(out)@ =~= old(out)@ + hms_text(sod as int));
}

fn push_ms(out: &mut String, millis: i64)
    requires
        0 <= millis < 1000,
    ensures
        final(out)@ == old(out)@ + ms_text(millis as int),
{
    if millis > 0 {
        push_char(out, '.');
        push_padded(out, millis as u64, 3);
    }
    push_char(out, 'Z');
    assert(final(out)@ =~= old(out)@ + ms_text(millis as int));
}

/// ISO 8601 UTC text of a timestamp in whole milliseconds since the Unix
/// epoch.
pub fn iso_from_millis(millis_total: i64) -> (r: String)
    ensures
        r@ == iso_spec(millis_total as int),
{
    let (secs, millis) = floor_divmod(millis_total, 1000);
    let (days, sod) = floor_divmod(secs, 86_400);
    proof {
        assert(-106_751_992_000 <= days <= 106_751_992_000) by (nonlinear_arith)
            requires
                millis_total == 1000 * secs + millis,
                0 <= millis < 1000,
                secs == 86400 * days + sod,
                0 <= sod < 86400,
                i64::MIN <= millis_total <= i64::MAX,
        ;
    }
    let (y, mo, d) = civil_from_days(days);
    proof {
        lemma_civil_date(days as int, y as int, mo as int, d as int);
    }
    let mut out = String::new();
    push_date(&mut out, y, mo, d);
    push_hms(&mut out, sod);
    push_ms(&mut out, millis);
    assert(out@ =~= iso_spec(millis_total as int));
    out
}

} // verus!
