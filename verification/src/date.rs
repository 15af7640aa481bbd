//! Date-filter compilation: absolute `YYYY-MM-DD` input and relative
//! shorthand (`7d`, `2w`, `3m`, `1y`), both rendered as the protocol's
//! `D-Mon-YYYY` form. Relative shorthand is resolved against a moment in
//! seconds since the Unix epoch with proleptic Gregorian civil-calendar
//! arithmetic, without floating point.

use vstd::prelude::*;
use vstd::arithmetic::div_mod::lemma_fundamental_div_mod_converse;
use crate::error::Error;
use crate::num::{
    all_digit_chars, dec_val, int_dec_seq, is_digit_char, num_body, parse_u32_str, parses_as_u64,
    u64_to_string, i64_to_string,
};
use crate::text::push_char;

verus! {

/// Division rounding toward negative infinity, as an integer function; for a
/// positive divisor this is exactly the mathematical (Euclidean) quotient.
pub fn flr_div(a: i64, b: i64) -> (q: i64)
    requires
        b > 0,
        a > i64::MIN,
    ensures
        q == a as int / b as int,
{
    if a >= 0 {
        let qa = (a as u64) / (b as u64);
        proof {
            lemma_div_result_bounded(a as int, b as int, qa as int);
        }
        qa as i64
    } else {
        let m = (-a) as u64;
        let bu = b as u64;
        let c = (m + bu - 1) / bu;
        proof {
            let ci = c as int;
            let mi = m as int;
            let bi = b as int;
            lemma_div_result_bounded(mi + bi - 1, bi, ci);
            let r0 = (mi + bi - 1) - ci * bi;
            assert(a as int == (-ci) * bi + (bi - 1 - r0)) by (nonlinear_arith)
                requires
                    a as int == -mi,
                    mi + bi - 1 == ci * bi + r0,
            ;
            lemma_fundamental_div_mod_converse(a as int, bi, -ci, bi - 1 - r0);
            assert(ci <= mi) by (nonlinear_arith)
                requires
                    ci * bi <= mi + bi - 1,
                    bi >= 1,
                    mi >= 1,
                    ci >= 0,
            ;
        }
        -(c as i64)
    }
}

/// The quotient of a nonnegative number by a positive one satisfies the
/// fundamental identity and is no larger than the dividend.
proof fn lemma_div_result_bounded(x: int, d: int, q: int)
    requires
        x >= 0,
        d > 0,
        q == x / d,
    ensures
        x == q * d + x % d,
        0 <= x % d < d,
        0 <= q <= x,
{
    vstd::arithmetic::div_mod::lemma_fundamental_div_mod(x, d);
    vstd::arithmetic::div_mod::lemma_mod_pos_bound(x, d);
    assert(q >= 0 && q <= q * d) by (nonlinear_arith)
        requires
            d > 0,
            q * d >= 0,
            q * d <= x,
            x >= 0,
    ;
}

/// Division rounding toward zero, matching the machine's signed division.
pub fn trunc_div(a: i64, b: i64) -> (q: i64)
    requires
        b > 0,
        a > i64::MIN,
    ensures
        a >= 0 ==> q == a as int / b as int,
        a < 0 ==> q == -((-(a as int)) / (b as int)),
{
    if a >= 0 {
        flr_div(a, b)
    } else {
        let m = (-a) as u64;
        let qa = m / (b as u64);
        proof {
            lemma_div_result_bounded(m as int, b as int, qa as int);
        }
        -(qa as i64)
    }
}

/// The civil (year, month, day) whose serial day number is `z`, counted from
/// the civil epoch; the day-counting formula follows Howard Hinnant's civil
/// calendar algorithm, stated over unbounded integers with quotients rounded
/// toward negative infinity.
pub open spec fn civil_from_days(z: int) -> (int, int, int) {
    let era = z / 146097;
    let doe = z - era * 146097;
    let yoe = (doe - doe / 1460 + doe / 36524 - doe / 146096) / 365;
    let y0 = yoe + era * 400;
    let doy = doe - (365 * yoe + yoe / 4 - yoe / 100);
    let mp = (5 * doy + 2) / 153;
    let d = doy - (153 * mp + 2) / 5 + 1;
    let m = if mp < 10 {
        mp + 3
    } else {
        mp - 9
    };
    let y = if m <= 2 {
        y0 + 1
    } else {
        y0
    };
    (y, m, d)
}

/// The civil date of a moment in seconds since the Unix epoch. Seconds are
/// turned into whole days with the machine's truncating division, as the
/// engine has always done.
pub open spec fn civil_of_secs(secs: int) -> (int, int, int) {
    let days = if secs >= 0 {
        secs / 86400
    } else {
        -((-secs) / 86400)
    };
    civil_from_days(days + 719468)
}

/// Convert seconds since the Unix epoch to a civil (year, month, day).
pub fn epoch_to_date(secs: i64) -> (r: (i64, i64, i64))
    requires
        secs > i64::MIN / 2,
    ensures
        (r.0 as int, r.1 as int, r.2 as int) == civil_of_secs(secs as int),
{
    let days = trunc_div(secs, 86400);
    let z = days + 719468;
    let era = flr_div(z, 146097);
    let doe = z - era * 146097;
    let yoe = flr_div(doe - flr_div(doe, 1460) + flr_div(doe, 36524) - flr_div(doe, 146096), 365);
    let y0 = yoe + era * 400;
    let doy = doe - (365 * yoe + flr_div(yoe, 4) - flr_div(yoe, 100));
    let mp = flr_div(5 * doy + 2, 153);
    let d = doy - flr_div(153 * mp + 2, 5) + 1;
    let m = if mp < 10 {
        mp + 3
    } else {
        mp - 9
    };
    let y = if m <= 2 {
        y0 + 1
    } else {
        y0
    };
    (y, m, d)
}

/// The standard Gregorian leap-year rule.
pub open spec fn is_leap_year(y: int) -> bool {
    y % 4 == 0 && (y % 100 != 0 || y % 400 == 0)
}

/// Days in a month of the civil calendar; months outside 1 through 12 are
/// answered with 30, as a harmless default for callers that validate later.
pub open spec fn days_in_month_spec(y: int, m: int) -> int {
    if m == 1 || m == 3 || m == 5 || m == 7 || m == 8 || m == 10 || m == 12 {
        31
    } else if m == 4 || m == 6 || m == 9 || m == 11 {
        30
    } else if m == 2 {
        if is_leap_year(y) {
            29
        } else {
            28
        }
    } else {
        30
    }
}

/// How many days the given month of the given year has.
pub fn days_in_month(year: i64, month: i64) -> (r: i64)
    requires
        year > i64::MIN / 2,
    ensures
        r == days_in_month_spec(year as int, month as int),
{
    if month == 1 || month == 3 || month == 5 || month == 7 || month == 8 || month == 10 || month
        == 12 {
        31
    } else if month == 4 || month == 6 || month == 9 || month == 11 {
        30
    } else if month == 2 {
        let k = flr_div(year, 400);
        let y400 = year - 400 * k;
        proof {
            assert(year as int % 400 == year - 400 * k);
            assert(0 <= y400 < 400);
            assert((year as int) % 4 == y400 as int % 4) by {
                lemma_fundamental_div_mod_converse(
                    year as int,
                    4,
                    100 * k + y400 as int / 4,
                    y400 as int % 4,
                );
            }
            assert((year as int) % 100 == y400 as int % 100) by {
                lemma_fundamental_div_mod_converse(
                    year as int,
                    100,
                    4 * k + y400 as int / 100,
                    y400 as int % 100,
                );
            }
        }
        let yu = y400 as u64;
        if yu % 4 == 0 && (yu % 100 != 0 || yu % 400 == 0) {
            29
        } else {
            28
        }
    } else {
        30
    }
}

/// The three-letter abbreviation of a month, 1 through 12.
pub open spec fn month_abbr(m: int) -> Seq<char> {
    if m == 1 {
        "Jan"@
    } else if m == 2 {
        "Feb"@
    } else if m == 3 {
        "Mar"@
    } else if m == 4 {
        "Apr"@
    } else if m == 5 {
        "May"@
    } else if m == 6 {
        "Jun"@
    } else if m == 7 {
        "Jul"@
    } else if m == 8 {
        "Aug"@
    } else if m == 9 {
        "Sep"@
    } else if m == 10 {
        "Oct"@
    } else if m == 11 {
        "Nov"@
    } else {
        "Dec"@
    }
}

/// A (day, month, year) triple the protocol date form can carry.
pub open spec fn printable_date(day: int, month: int, year: int) -> bool {
    1 <= month <= 12 && 1 <= day <= 31
}

/// The protocol's native date text: day of month with no leading zero, a
/// three-letter month, a full year.
pub open spec fn imap_date_seq(day: int, month: int, year: int) -> Seq<char> {
    int_dec_seq(day) + seq!['-'] + month_abbr(month) + seq!['-'] + int_dec_seq(year)
}

/// Render a computed date in the protocol's `D-Mon-YYYY` form, rejecting a
/// month or day outside the printable range.
pub fn format_imap_date(day: i64, month: i64, year: i64) -> (r: Result<String, Error>)
    ensures
        printable_date(day as int, month as int, year as int) <==> r is Ok,
        r is Ok ==> r->Ok_0@ == imap_date_seq(day as int, month as int, year as int),
        r is Err ==> r->Err_0 == Error::BadComputedDate(year, month, day),
{
    if !(1 <= month && month <= 12) || !(1 <= day && day <= 31) {
        return Err(Error::BadComputedDate(year, month, day));
    }
    let abbr: &str = if month == 1 {
        "Jan"
    } else if month == 2 {
        "Feb"
    } else if month == 3 {
        "Mar"
    } else if month == 4 {
        "Apr"
    } else if month == 5 {
        "May"
    } else if month == 6 {
        "Jun"
    } else if month == 7 {
        "Jul"
    } else if month == 8 {
        "Aug"
    } else if month == 9 {
        "Sep"
    } else if month == 10 {
        "Oct"
    } else {
        if month == 11 {
            "Nov"
        } else {
            "Dec"
        }
    };
    let mut out = u64_to_string(day as u64);
    push_char(&mut out, '-');
    out.append(abbr);
    push_char(&mut out, '-');
    let ys = i64_to_string(year);
    out.append(ys.as_str());
    proof {
        assert(out@ =~= imap_date_seq(day as int, month as int, year as int));
    }
    Ok(out)
}

/// A unit letter of the relative shorthand: days, weeks, months, years.
pub open spec fn is_rel_unit(c: char) -> bool {
    c == 'd' || c == 'w' || c == 'm' || c == 'y'
}

/// A relative date token: one or more digits followed by a unit letter.
pub open spec fn is_rel_date(s: Seq<char>) -> bool {
    s.len() >= 2 && is_rel_unit(s.last()) && all_digit_chars(s.drop_last())
}

/// An absolute date token: `YYYY-MM-DD`, digits and dashes in place.
pub open spec fn is_abs_date(s: Seq<char>) -> bool {
    &&& s.len() == 10
    &&& s[4] == '-'
    &&& s[7] == '-'
    &&& is_digit_char(s[0])
    &&& is_digit_char(s[1])
    &&& is_digit_char(s[2])
    &&& is_digit_char(s[3])
    &&& is_digit_char(s[5])
    &&& is_digit_char(s[6])
    &&& is_digit_char(s[8])
    &&& is_digit_char(s[9])
}

/// The (year, month, day) a relative token names, evaluated at the moment
/// `now`: days and weeks step back whole days; months and years step back on
/// the calendar, clamping the day to the last day of the target month.
pub open spec fn rel_target(s: Seq<char>, now: int) -> (int, int, int) {
    let n = dec_val(s.drop_last());
    let u = s.last();
    if u == 'd' || u == 'w' {
        let days = if u == 'w' {
            n * 7
        } else {
            n
        };
        civil_of_secs(now - days * 86400)
    } else if u == 'm' {
        let t = civil_of_secs(now);
        let tm = t.0 * 12 + t.1 - 1 - n;
        let y2 = tm / 12;
        let m2 = tm % 12 + 1;
        let dim = days_in_month_spec(y2, m2);
        let d2 = if t.2 <= dim {
            t.2
        } else {
            dim
        };
        (y2, m2, d2)
    } else {
        let t = civil_of_secs(now);
        let y2 = t.0 - n;
        let dim = days_in_month_spec(y2, t.1);
        let d2 = if t.2 <= dim {
            t.2
        } else {
            dim
        };
        (y2, t.1, d2)
    }
}

/// The (year, month, day) an absolute token names.
pub open spec fn abs_target(s: Seq<char>) -> (int, int, int) {
    (dec_val(s.subrange(0, 4)), dec_val(s.subrange(5, 7)), dec_val(s.subrange(8, 10)))
}

/// Whether the token `s` compiles to a date at the moment `now`.
pub open spec fn date_compiles(s: Seq<char>, now: int) -> bool {
    if is_rel_date(s) {
        dec_val(s.drop_last()) <= u32::MAX && {
            let t = rel_target(s, now);
            printable_date(t.2, t.1, t.0)
        }
    } else if is_abs_date(s) {
        let t = abs_target(s);
        printable_date(t.2, t.1, t.0)
    } else {
        false
    }
}

/// The protocol text the token `s` compiles to, when it compiles.
pub open spec fn date_text(s: Seq<char>, now: int) -> Seq<char> {
    if is_rel_date(s) {
        let t = rel_target(s, now);
        imap_date_seq(t.2, t.1, t.0)
    } else {
        let t = abs_target(s);
        imap_date_seq(t.2, t.1, t.0)
    }
}

/// The validation error the token `s` earns when it does not compile.
pub open spec fn date_error(s: Seq<char>, now: int, e: Error) -> bool {
    if is_rel_date(s) && dec_val(s.drop_last()) <= u32::MAX {
        let t = rel_target(s, now);
        e matches Error::BadComputedDate(yy, mm, dd) && yy == t.0 && mm == t.1 && dd == t.2
    } else {
        e matches Error::BadDate(x) && x@ == s
    }
}

/// What date compilation returns for the token `s` at the moment `now`: the
/// protocol form of the named date, or the validation error the token earns.
pub open spec fn date_outcome(s: Seq<char>, now: int, r: Result<String, Error>) -> bool {
    if date_compiles(s, now) {
        r is Ok && r->Ok_0@ == date_text(s, now)
    } else {
        r is Err && date_error(s, now, r->Err_0)
    }
}

/// Compile a date token at an explicit moment: absolute `YYYY-MM-DD`, or
/// relative shorthand counted back from `now_secs`, rendered as `D-Mon-YYYY`.
pub fn parse_date_at(s: &str, now_secs: i64) -> (r: Result<String, Error>)
    requires
        now_secs >= 0,
    ensures
        date_outcome(s@, now_secs as int, r),
{
    let n = s.unicode_len();
    if n >= 2 {
        let u = s.get_char(n - 1);
        if u == 'd' || u == 'w' || u == 'm' || u == 'y' {
            let mut digits = true;
            let mut i: usize = 0;
            while i < n - 1
                invariant
                    n == s@.len(),
                    n >= 2,
                    i <= n - 1,
                    digits <==> all_digit_chars(s@.subrange(0, i as int)),
                decreases n - 1 - i,
            {
                let c = s.get_char(i);
                let d = '0' as u32 <= c as u32 && c as u32 <= '9' as u32;
                proof {
                    let pre = s@.subrange(0, i as int);
                    let cur = s@.subrange(0, i + 1);
                    assert(cur =~= pre.push(s@[i as int]));
                    if digits && d {
                        assert(forall|k: int| 0 <= k < cur.len() ==> is_digit_char(#[trigger] cur[k]));
                    }
                    if !d {
                        assert(cur[i as int] == s@[i as int]);
                        assert(!all_digit_chars(cur));
                    }
                    if !digits {
                        let j = choose|j: int| 0 <= j < pre.len() && !is_digit_char(#[trigger] pre[j]);
                        assert(cur[j] == pre[j]);
                        assert(!all_digit_chars(cur));
                    }
                }
                if !d {
                    digits = false;
                }
                i = i + 1;
            }
            proof {
                assert(s@.subrange(0, n - 1) =~= s@.drop_last());
                assert(s@.last() == s@[n - 1]);
            }
            if digits {
                let body = s.substring_char(0, n - 1);
                proof {
                    assert(body@ == s@.drop_last());
                    assert(is_digit_char(body@[0]));
                    assert(body@[0] != '+');
                    assert(num_body(body@) == body@);
                }
                let cnt = match parse_u32_str(body) {
                    Some(v) => v,
                    None => {
                        return Err(Error::BadDate(s.to_owned()));
                    },
                };
                if u == 'd' || u == 'w' {
                    let days: i64 = if u == 'w' {
                        (cnt as i64) * 7
                    } else {
                        cnt as i64
                    };
                    let target = now_secs - days * 86400;
                    let t = epoch_to_date(target);
                    return format_imap_date(t.2, t.1, t.0);
                } else if u == 'm' {
                    let t = epoch_to_date(now_secs);
                    let tm = t.0 * 12 + t.1 - 1 - (cnt as i64);
                    let y2 = flr_div(tm, 12);
                    let m2 = tm - 12 * y2 + 1;
                    proof {
                        vstd::arithmetic::div_mod::lemma_fundamental_div_mod(tm as int, 12);
                    }
                    let dim = days_in_month(y2, m2);
                    let d2 = if t.2 <= dim {
                        t.2
                    } else {
                        dim
                    };
                    return format_imap_date(d2, m2, y2);
                } else {
                    let t = epoch_to_date(now_secs);
                    let y2 = t.0 - (cnt as i64);
                    let dim = days_in_month(y2, t.1);
                    let d2 = if t.2 <= dim {
                        t.2
                    } else {
                        dim
                    };
                    return format_imap_date(d2, t.1, y2);
                }
            }
        }
    }
    if n != 10 {
        return Err(Error::BadDate(s.to_owned()));
    }
    let mut shape = s.get_char(4) == '-' && s.get_char(7) == '-';
    let mut i: usize = 0;
    while i < 10
        invariant
            n == s@.len(),
            n == 10,
            i <= 10,
            shape <==> (s@[4] == '-' && s@[7] == '-' && forall|k: int|
                0 <= k < i && k != 4 && k != 7 ==> is_digit_char(#[trigger] s@[k])),
        decreases 10 - i,
    {
        if i != 4 && i != 7 {
            let c = s.get_char(i);
            if !('0' as u32 <= c as u32 && c as u32 <= '9' as u32) {
                shape = false;
            }
        }
        i = i + 1;
    }
    if !shape {
        proof {
            assert(!is_abs_date(s@));
        }
        return Err(Error::BadDate(s.to_owned()));
    }
    proof {
        assert(is_abs_date(s@));
    }
    let ys = s.substring_char(0, 4);
    let ms = s.substring_char(5, 7);
    let ds = s.substring_char(8, 10);
    proof {
        assert forall|i: int| 0 <= i < ys@.len() implies is_digit_char(#[trigger] ys@[i]) by {
            assert(ys@[i] == s@[i]);
        }
        assert forall|i: int| 0 <= i < ms@.len() implies is_digit_char(#[trigger] ms@[i]) by {
            assert(ms@[i] == s@[i + 5]);
        }
        assert forall|i: int| 0 <= i < ds@.len() implies is_digit_char(#[trigger] ds@[i]) by {
            assert(ds@[i] == s@[i + 8]);
        }
        assert(is_digit_char(ys@[0]) && ys@[0] != '+' && num_body(ys@) == ys@);
        assert(is_digit_char(ms@[0]) && ms@[0] != '+' && num_body(ms@) == ms@);
        assert(is_digit_char(ds@[0]) && ds@[0] != '+' && num_body(ds@) == ds@);
        lemma_small_dec_val(ys@);
        lemma_small_dec_val(ms@);
        lemma_small_dec_val(ds@);
        reveal_with_fuel(pow10, 5);
        assert(pow10(4) == 10000);
        assert(pow10(2) == 100);
    }
    let year = match parse_u32_str(ys) {
        Some(v) => v,
        None => {
            return Err(Error::BadDate(s.to_owned()));
        },
    };
    let month = match parse_u32_str(ms) {
        Some(v) => v,
        None => {
            return Err(Error::BadDate(s.to_owned()));
        },
    };
    let day = match parse_u32_str(ds) {
        Some(v) => v,
        None => {
            return Err(Error::BadDate(s.to_owned()));
        },
    };
    match format_imap_date(day as i64, month as i64, year as i64) {
        Ok(text) => Ok(text),
        Err(_) => Err(Error::BadDate(s.to_owned())),
    }
}

/// Powers of ten, for bounding the value of short digit strings.
pub open spec fn pow10(n: nat) -> int
    decreases n,
{
    if n == 0 {
        1
    } else {
        10 * pow10((n - 1) as nat)
    }
}

/// A digit string of length `n` reads back below the `n`-th power of ten.
proof fn lemma_small_dec_val(s: Seq<char>)
    requires
        all_digit_chars(s),
    ensures
        0 <= dec_val(s) < pow10(s.len()),
    decreases s.len(),
{
    if s.len() == 0 {
    } else {
        assert(forall|i: int| 0 <= i < s.len() - 1 ==> s.drop_last()[i] == s[i]);
        lemma_small_dec_val(s.drop_last());
        assert(is_digit_char(s.last()));
    }
}

/// Relies on `std::time::SystemTime::now` and `duration_since` for the
/// current moment in seconds since the Unix epoch; a clock before the epoch
/// is answered with zero.
#[verifier::external_body]
fn now_epoch_secs() -> (r: u64) {
    std::time::SystemTime::now().duration_since(std::time::UNIX_EPOCH).map(
        |d| d.as_secs(),
    ).unwrap_or(0)
}

/// The current moment in seconds since the Unix epoch, clamped into the
/// nonnegative range of `i64`.
pub fn current_epoch_secs() -> (r: i64)
    ensures
        r >= 0,
{
    let now_u = now_epoch_secs();
    if now_u > 0x7fff_ffff_ffff_ffff {
        0x7fff_ffff_ffff_ffff
    } else {
        now_u as i64
    }
}

/// Compile a date token against the current moment. The outcome is that of
/// `parse_date_at` for some nonnegative moment: exact for absolute tokens,
/// and clock-dependent only for relative ones.
pub fn parse_date(s: &str) -> (r: Result<String, Error>)
    ensures
        exists|t: int| 0 <= t && #[trigger] date_outcome(s@, t, r),
{
    let now = current_epoch_secs();
    let r = parse_date_at(s, now);
    proof {
        assert(date_outcome(s@, now as int, r));
    }
    r
}

/// Stepping one month back from a March 31 lands on the last day of
/// February of the same year, leap years included: the month arithmetic
/// clamps the day to the length of the target month.
pub proof fn lemma_month_shorthand_clamps(now: int, r: Result<String, Error>)
    requires
        civil_of_secs(now).1 == 3,
        civil_of_secs(now).2 == 31,
        date_outcome("1m"@, now, r),
    ensures
        r is Ok,
        r->Ok_0@ == imap_date_seq(
            days_in_month_spec(civil_of_secs(now).0, 2),
            2,
            civil_of_secs(now).0,
        ),
{
    reveal_strlit("1m");
    let s = "1m"@;
    assert(s.len() == 2 && s[0] == '1' && s[1] == 'm');
    assert(s.drop_last() =~= seq!['1']);
    assert(s.last() == 'm');
    assert(is_digit_char('1'));
    assert(forall|i: int| 0 <= i < 1 ==> is_digit_char(#[trigger] seq!['1'][i]));
    assert(is_rel_date(s));
    assert(seq!['1'].drop_last() =~= Seq::<char>::empty());
    assert(dec_val(Seq::<char>::empty()) == 0);
    assert(dec_val(seq!['1']) == 1);
    let y = civil_of_secs(now).0;
    let tm = y * 12 + 3 - 1 - 1;
    lemma_fundamental_div_mod_converse(tm, 12, y, 1);
    assert(tm / 12 == y && tm % 12 == 1);
    let dim = days_in_month_spec(y, 2);
    assert(dim == 28 || dim == 29);
    let t = rel_target(s, now);
    assert(t.0 == y && t.1 == 2 && t.2 == dim);
    assert(printable_date(t.2, t.1, t.0));
}

} // verus!
