//! The layout of the history on disk: one file per calendar month, and the
//! window of months read back at start-up, oldest first.
use vstd::prelude::*;
use chrono::{Datelike, TimeZone};
use crate::text::{chars_of, string_of};

verus! {

/// Months counted from January of year 0.
pub open spec fn month_index(y: int, m: int) -> int {
    y * 12 + m - 1
}

/// The year of the month with index `t`.
pub open spec fn year_of(t: int) -> int {
    t / 12
}

/// The month number, 1 to 12, of the month with index `t`.
pub open spec fn month_of(t: int) -> int {
    t % 12 + 1
}

/// Whether the `months` months ending with month `m` of year `y` all have
/// years that fit in an `i32`.
pub open spec fn window_fits(y: int, m: int, months: int) -> bool {
    month_index(y, m) - months >= month_index(i32::MIN as int, 1) - 1
}

/// Months in calendar order without a gap, each a valid month number.
pub open spec fn consecutive_months(ms: Seq<(i32, u32)>) -> bool {
    &&& forall|i: int| 0 <= i < ms.len() ==> 1 <= (#[trigger] ms[i]).1 <= 12
    &&& forall|i: int| 0 < i < ms.len() ==> month_index(ms[i].0 as int, ms[i].1 as int)
        == month_index(#[trigger] ms[i - 1].0 as int, ms[i - 1].1 as int) + 1
}

pub open spec fn digit_spec(d: nat) -> char {
    if d == 0 { '0' } else if d == 1 { '1' } else if d == 2 { '2' } else if d == 3 { '3' }
    else if d == 4 { '4' } else if d == 5 { '5' } else if d == 6 { '6' } else if d == 7 { '7' }
    else if d == 8 { '8' } else { '9' }
}

/// Decimal digits of `n`, without leading zeros.
pub open spec fn digits(n: nat) -> Seq<char>
    decreases n,
{
    if n < 10 {
        seq![digit_spec(n)]
    } else {
        digits(n / 10).push(digit_spec(n % 10))
    }
}

/// Decimal text of `y`, with a minus sign when negative.
pub open spec fn int_text(y: int) -> Seq<char> {
    if y < 0 { seq!['-'] + digits((-y) as nat) } else { digits(y as nat) }
}

/// Name of the history file of month `m` of year `y`.
pub open spec fn file_name_spec(y: int, m: int) -> Seq<char> {
    "s_history_"@ + int_text(y) + seq!['_'] + digits(m as nat) + ".toml"@
}

fn digit_char(d: u64) -> (c: char)
    requires
        d < 10,
    ensures
        c == digit_spec(d as nat),
{
    if d == 0 { '0' } else if d == 1 { '1' } else if d == 2 { '2' } else if d == 3 { '3' }
    else if d == 4 { '4' } else if d == 5 { '5' } else if d == 6 { '6' } else if d == 7 { '7' }
    else if d == 8 { '8' } else { '9' }
}

fn digits_of(n: u64) -> (r: Vec<char>)
    ensures
        r@ == digits(n as nat),
    decreases n,
{
    if n < 10 {
        vec![digit_char(n)]
    } else {
        let mut r = digits_of(n / 10);
        r.push(digit_char(n % 10));
        r
    }
}

/// The name of the history file of month `m` of year `y`.
pub fn on_year_month(y: i32, m: u32) -> (r: String)
    ensures
        r@ == file_name_spec(y as int, m as int),
{
    let mut v = chars_of("s_history_");
    if y < 0 {
        v.push('-');
        let mut d = digits_of((-(y as i64)) as u64);
        v.append(&mut d);
    } else {
        let mut d = digits_of(y as u64);
        v.append(&mut d);
    }
    v.push('_');
    let mut d = digits_of(m as u64);
    v.append(&mut d);
    let mut t = chars_of(".toml");
    v.append(&mut t);
    assert(v@ =~= file_name_spec(y as int, m as int));
    string_of(&v)
}

fn month_before(y: i32, m: u32) -> (r: (i32, u32))
    requires
        1 <= m <= 12,
        m == 1 ==> y > i32::MIN,
    ensures
        1 <= r.1 <= 12,
        month_index(r.0 as int, r.1 as int) == month_index(y as int, m as int) - 1,
{
    if m == 1 { (y - 1, 12) } else { (y, m - 1) }
}

fn month_after(y: i32, m: u32) -> (r: (i32, u32))
    requires
        1 <= m <= 12,
        m == 12 ==> y < i32::MAX,
    ensures
        1 <= r.1 <= 12,
        month_index(r.0 as int, r.1 as int) == month_index(y as int, m as int) + 1,
{
    if m == 12 { (y + 1, 1) } else { (y, m + 1) }
}

/// The `months` months that end with month `m` of year `y`, oldest first.
pub fn recent_months(y: i32, m: u32, months: u32) -> (r: Vec<(i32, u32)>)
    requires
        1 <= m <= 12,
        month_index(y as int, m as int) - months >= month_index(i32::MIN as int, 1) - 1,
    ensures
        r@.len() == months,
        consecutive_months(r@),
        months > 0 ==> r@.last() == (y, m),
        forall|i: int| 0 <= i < months ==> month_index((#[trigger] r@[i]).0 as int, r@[i].1 as int)
            == month_index(y as int, m as int) - (months - 1 - i),
{
    let mut r: Vec<(i32, u32)> = Vec::new();
    if months == 0 {
        return r;
    }
    let mut cy = y;
    let mut cm = m;
    let mut k: u32 = 1;
    while k < months
        invariant
            1 <= k <= months,
            1 <= m <= 12,
            1 <= cm <= 12,
            month_index(cy as int, cm as int) == month_index(y as int, m as int) - (k - 1),
            month_index(y as int, m as int) - months >= month_index(i32::MIN as int, 1) - 1,
        decreases months - k,
    {
        let p = month_before(cy, cm);
        cy = p.0;
        cm = p.1;
        k = k + 1;
    }
    let mut i: u32 = 0;
    while i < months
        invariant
            0 <= i <= months,
            1 <= m <= 12,
            1 <= cm <= 12,
            r@.len() == i,
            i < months ==> month_index(cy as int, cm as int) == month_index(y as int, m as int) - (months - 1) + i,
            i == months ==> r@.last() == (y, m),
            i > 0 ==> month_index(r@.last().0 as int, r@.last().1 as int) == month_index(y as int, m as int) - (months - 1) + i - 1,
            i > 0 && i < months ==> month_index(cy as int, cm as int) == month_index(r@.last().0 as int, r@.last().1 as int) + 1,
            consecutive_months(r@),
            forall|j: int| 0 <= j < i ==> month_index((#[trigger] r@[j]).0 as int, r@[j].1 as int)
                == month_index(y as int, m as int) - (months - 1 - j),
        decreases months - i,
    {
        let ghost before = r@;
        r.push((cy, cm));
        assert(r@.last() == (cy, cm));
        assert(forall|j: int| 0 <= j < before.len() ==> r@[j] == before[j]);
        if i + 1 < months {
            assert(cm == 12 ==> cy < y) by (nonlinear_arith)
                requires
                    month_index(cy as int, cm as int) < month_index(y as int, m as int),
                    1 <= cm <= 12,
                    1 <= m <= 12,
            {
            }
            let p = month_after(cy, cm);
            cy = p.0;
            cm = p.1;
        } else {
            assert(cy == y && cm == m) by (nonlinear_arith)
                requires
                    month_index(cy as int, cm as int) == month_index(y as int, m as int),
                    1 <= cm <= 12,
                    1 <= m <= 12,
            {
            }
        }
        i = i + 1;
    }
    r
}

/// Relies on chrono's `TimeZone::timestamp_opt` on `Local` with `earliest`,
/// and on `Datelike::year` and `Datelike::month`: the year and month, in the
/// machine's time zone, of a time in seconds since the Unix epoch; `None`
/// where chrono cannot represent it. chrono gives months from 1 to 12.
#[verifier::external_body]
fn local_year_month(secs: u64) -> (r: Option<(i32, u32)>)
    requires
        secs <= i64::MAX as u64,
    ensures
        r matches Some(ym) ==> 1 <= ym.1 <= 12,
{
    match chrono::Local.timestamp_opt(secs as i64, 0).earliest() {
        Some(dt) => Some((dt.year(), dt.month())),
        None => None,
    }
}

/// The name of the history file of the local month of `now` (seconds since
/// the Unix epoch); none where that month cannot be told.
pub fn history_file_for(now: u64) -> (r: Option<String>)
    ensures
        now > i64::MAX as u64 ==> r is None,
        r matches Some(n) ==> exists|y: i32, m: u32| 1 <= m <= 12 && n@ == #[trigger] file_name_spec(y as int, m as int),
{
    if now > i64::MAX as u64 {
        return None;
    }
    match local_year_month(now) {
        Some((y, m)) => Some(on_year_month(y, m)),
        None => None,
    }
}

/// The names of the history files of the `months` months that end with
/// month `m` of year `y`, oldest first; none where the earliest of those
/// months lies before the first month of the smallest `i32` year.
pub fn window_file_names(y: i32, m: u32, months: u32) -> (r: Vec<String>)
    requires
        1 <= m <= 12,
    ensures
        window_fits(y as int, m as int, months as int) ==> r@.len() == months,
        !window_fits(y as int, m as int, months as int) ==> r@.len() == 0,
        forall|i: int| 0 <= i < r@.len() ==> (#[trigger] r@[i])@ == file_name_spec(
            year_of(month_index(y as int, m as int) - (months - 1 - i)),
            month_of(month_index(y as int, m as int) - (months - 1 - i)),
        ),
{
    let mut r: Vec<String> = Vec::new();
    if (y as i64) * 12 + (m as i64) - 1 - (months as i64) < (i32::MIN as i64) * 12 - 1 {
        return r;
    }
    let ms = recent_months(y, m, months);
    let mut i: usize = 0;
    while i < ms.len()
        invariant
            1 <= m <= 12,
            i <= ms@.len(),
            ms@.len() == months,
            r@.len() == i,
            consecutive_months(ms@),
            forall|j: int| 0 <= j < months ==> month_index((#[trigger] ms@[j]).0 as int, ms@[j].1 as int)
                == month_index(y as int, m as int) - (months - 1 - j),
            forall|j: int| 0 <= j < i ==> (#[trigger] r@[j])@ == file_name_spec(
                year_of(month_index(y as int, m as int) - (months - 1 - j)),
                month_of(month_index(y as int, m as int) - (months - 1 - j)),
            ),
        decreases ms@.len() - i,
    {
        let (yy, mm) = ms[i];
        proof {
            let t = month_index(y as int, m as int) - (months - 1 - i);
            assert(1 <= mm <= 12);
            assert(month_index(yy as int, mm as int) == t);
            assert(yy as int == t / 12 && mm as int == t % 12 + 1) by (nonlinear_arith)
                requires
                    (yy as int) * 12 + (mm as int) - 1 == t,
                    1 <= mm <= 12,
            {
            }
        }
        let name = on_year_month(yy, mm);
        r.push(name);
        i = i + 1;
    }
    r
}

/// The names of the history files of the `months` months that end with the
/// local month of `now` (seconds since the Unix epoch), oldest first; none
/// where that month cannot be told.
pub fn recent_history_files(now: u64, months: u32) -> (r: Vec<String>)
    ensures
        months == 0 ==> r@.len() == 0,
        now > i64::MAX as u64 ==> r@.len() == 0,
        r@.len() == 0 || exists|y: i32, m: u32| 1 <= m <= 12 && #[trigger] window_fits(y as int, m as int, months as int)
            && r@.len() == months && forall|i: int| 0 <= i < months ==> (#[trigger] r@[i])@ == file_name_spec(
                year_of(month_index(y as int, m as int) - (months - 1 - i)),
                month_of(month_index(y as int, m as int) - (months - 1 - i)),
            ),
{
    if months == 0 || now > i64::MAX as u64 {
        return Vec::new();
    }
    match local_year_month(now) {
        None => Vec::new(),
        Some((y, m)) => window_file_names(y, m, months),
    }
}

} // verus!
