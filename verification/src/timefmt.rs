use vstd::prelude::*;
use vstd::string::*;
use crate::strutil::{spec_u64_digits, spec_pad_left, u64_to_string, pad_left};
use crate::record::Rec;

verus! {

// ---------- the proleptic Gregorian calendar, from the epoch ----------

pub open spec fn spec_is_leap(y: int) -> bool {
    (y % 4 == 0 && y % 100 != 0) || y % 400 == 0
}

pub open spec fn spec_days_in_year(y: int) -> int {
    if spec_is_leap(y) {
        366
    } else {
        365
    }
}

pub open spec fn spec_days_in_month(y: int, m: int) -> int {
    if m == 2 {
        if spec_is_leap(y) {
            29
        } else {
            28
        }
    } else if m == 4 || m == 6 || m == 9 || m == 11 {
        30
    } else {
        31
    }
}

/// Days from 1970-01-01 to the first day of year `y`.
pub open spec fn spec_days_before_year(y: int) -> int
    decreases (if y >= 1970 {
        y - 1970
    } else {
        0
    }),
{
    if y <= 1970 {
        0
    } else {
        spec_days_before_year(y - 1) + spec_days_in_year(y - 1)
    }
}

/// Days from the first of January of `y` to the first day of month `m`.
pub open spec fn spec_days_before_month(y: int, m: int) -> int
    decreases (if m >= 1 {
        m
    } else {
        0
    }),
{
    if m <= 1 {
        0
    } else {
        spec_days_before_month(y, m - 1) + spec_days_in_month(y, m - 1)
    }
}

/// The day number of a calendar date: days since 1970-01-01.
pub open spec fn spec_day_number(y: int, m: int, d: int) -> int {
    spec_days_before_year(y) + spec_days_before_month(y, m) + d - 1
}

pub open spec fn spec_valid_ymd(y: int, m: int, d: int) -> bool {
    1970 <= y <= 9999 && 1 <= m <= 12 && 1 <= d <= spec_days_in_month(y, m)
}

proof fn lemma_dby_mono(a: int, b: int)
    requires
        1970 <= a <= b,
    ensures
        spec_days_before_year(a) <= spec_days_before_year(b),
        spec_days_before_year(a) + 365 * (b - a) <= spec_days_before_year(b),
    decreases b - a,
{
    if a < b {
        lemma_dby_mono(a, b - 1);
    }
}

proof fn lemma_dby_upper(y: int)
    requires
        1970 <= y,
    ensures
        spec_days_before_year(y) <= 366 * (y - 1970),
    decreases y - 1970,
{
    if y > 1970 {
        lemma_dby_upper(y - 1);
    }
}

proof fn lemma_dbm_mono(y: int, m1: int, m2: int)
    requires
        1 <= m1 <= m2 <= 13,
    ensures
        spec_days_before_month(y, m1) <= spec_days_before_month(y, m2),
    decreases m2 - m1,
{
    if m1 < m2 {
        lemma_dbm_mono(y, m1, m2 - 1);
        assert(spec_days_in_month(y, m2 - 1) >= 28);
    }
}

proof fn lemma_dbm_13(y: int)
    ensures
        spec_days_before_month(y, 13) == spec_days_in_year(y),
{
    reveal_with_fuel(spec_days_before_month, 14);
}

/// A day number determines its calendar date: no two valid dates share
/// one.
pub proof fn lemma_civil_unique(y1: int, m1: int, d1: int, y2: int, m2: int, d2: int)
    requires
        spec_valid_ymd(y1, m1, d1),
        spec_valid_ymd(y2, m2, d2),
        spec_day_number(y1, m1, d1) == spec_day_number(y2, m2, d2),
    ensures
        y1 == y2 && m1 == m2 && d1 == d2,
{
    lemma_daynum_bounds(y1, m1, d1);
    lemma_daynum_bounds(y2, m2, d2);
    if y1 < y2 {
        lemma_dby_mono(y1 + 1, y2);
        assert(false);
    }
    if y2 < y1 {
        lemma_dby_mono(y2 + 1, y1);
        assert(false);
    }
    let x1 = spec_days_before_month(y1, m1) + d1 - 1;
    let x2 = spec_days_before_month(y1, m2) + d2 - 1;
    assert(x1 == x2);
    lemma_inmonth_bounds(y1, m1, d1);
    lemma_inmonth_bounds(y1, m2, d2);
    if m1 < m2 {
        lemma_dbm_mono(y1, m1 + 1, m2);
        assert(false);
    }
    if m2 < m1 {
        lemma_dbm_mono(y1, m2 + 1, m1);
        assert(false);
    }
}

proof fn lemma_inmonth_bounds(y: int, m: int, d: int)
    requires
        spec_valid_ymd(y, m, d),
    ensures
        spec_days_before_month(y, m) <= spec_days_before_month(y, m) + d - 1,
        spec_days_before_month(y, m) + d - 1 < spec_days_before_month(y, m + 1),
{
}

proof fn lemma_daynum_bounds(y: int, m: int, d: int)
    requires
        spec_valid_ymd(y, m, d),
    ensures
        spec_days_before_year(y) <= spec_day_number(y, m, d),
        spec_day_number(y, m, d) < spec_days_before_year(y + 1),
{
    lemma_dbm_mono(y, 1, m);
    lemma_dbm_mono(y, m + 1, 13);
    lemma_dbm_13(y);
}

/// The calendar date a day number stands for.
pub open spec fn spec_civil_ymd(days: int) -> (int, int, int) {
    choose|t: (int, int, int)|
        spec_valid_ymd(t.0, t.1, t.2) && spec_day_number(t.0, t.1, t.2) == days
}

// ---------- executable calendar ----------

fn is_leap(y: u32) -> (r: bool)
    ensures
        r == spec_is_leap(y as int),
{
    (y % 4 == 0 && y % 100 != 0) || y % 400 == 0
}

fn days_in_year(y: u32) -> (r: u64)
    ensures
        r == spec_days_in_year(y as int),
{
    if is_leap(y) {
        366
    } else {
        365
    }
}

fn days_in_month(y: u32, m: u32) -> (r: u64)
    ensures
        r == spec_days_in_month(y as int, m as int),
{
    if m == 2 {
        if is_leap(y) {
            29
        } else {
            28
        }
    } else if m == 4 || m == 6 || m == 9 || m == 11 {
        30
    } else {
        31
    }
}

/// The calendar date of a day number, when it falls before the year
/// 10000 (the fixed-width formats have four-digit years).
#[verifier::loop_isolation(false)]
pub fn civil_from_days(days: u64) -> (r: Option<(u32, u32, u32)>)
    ensures
        match r {
            Some(t) => spec_valid_ymd(t.0 as int, t.1 as int, t.2 as int) && spec_day_number(
                t.0 as int,
                t.1 as int,
                t.2 as int,
            ) == days,
            None => days >= spec_days_before_year(10000),
        },
{
    let mut y: u32 = 1970;
    let mut rem: u64 = days;
    while y < 10000 && rem >= days_in_year(y)
        invariant
            1970 <= y <= 10000,
            days == spec_days_before_year(y as int) + rem,
        decreases 10000 - y,
    {
        rem = rem - days_in_year(y);
        y = y + 1;
    }
    if y == 10000 {
        return None;
    }
    let ghost rem0 = rem as int;
    let mut m: u32 = 1;
    while m < 12 && rem >= days_in_month(y, m)
        invariant
            1 <= m <= 12,
            rem0 == spec_days_before_month(y as int, m as int) + rem,
            rem0 < spec_days_in_year(y as int),
        decreases 12 - m,
    {
        rem = rem - days_in_month(y, m);
        m = m + 1;
    }
    proof {
        if m == 12 {
            lemma_dbm_13(y as int);
        }
        assert(rem < spec_days_in_month(y as int, m as int));
    }
    let d: u32 = (rem + 1) as u32;
    Some((y, m, d))
}

// ---------- fixed-width decimal formatting ----------

/// The decimal digits of `n`, zero-padded on the left to width `w`.
pub open spec fn spec_pad_digits(n: int, w: int) -> Seq<char> {
    spec_pad_left(spec_u64_digits(n), '0', w)
}

pub fn format_u64_pad(n: u64, w: usize) -> (r: String)
    ensures
        r@ == spec_pad_digits(n as int, w as int),
{
    let s = u64_to_string(n);
    proof {
        reveal_strlit("0");
        assert("0"@ =~= seq!['0']);
    }
    pad_left(s.as_str(), "0", w)
}

/// The `YYYYMMDD` text of the calendar date of `total` (seconds from the
/// epoch in some fixed reckoning).
pub open spec fn spec_date_digits(total: int) -> Seq<char> {
    let days = total / 86400;
    let t = spec_civil_ymd(days);
    spec_pad_digits(t.0, 4) + spec_pad_digits(t.1, 2) + spec_pad_digits(t.2, 2)
}

/// The `HHMMSS` text of the time of day of `total`.
pub open spec fn spec_time_digits(total: int) -> Seq<char> {
    let tod = total % 86400;
    spec_pad_digits(tod / 3600, 2) + spec_pad_digits((tod % 3600) / 60, 2) + spec_pad_digits(
        tod % 60,
        2,
    )
}

/// Renders a second count as its calendar date and time of day, when it
/// lies on or after the epoch and before the year 10000.
pub fn format_datetime(total: i64) -> (r: Option<(String, String)>)
    ensures
        r is Some <==> 0 <= total && total < spec_days_before_year(10000) * 86400,
        r matches Some(p) ==> p.0@ == spec_date_digits(total as int) && p.1@ == spec_time_digits(
            total as int,
        ),
{
    if total < 0 {
        return None;
    }
    let days: u64 = (total / 86400) as u64;
    let tod: u64 = (total % 86400) as u64;
    match civil_from_days(days) {
        None => {
            proof {
                assert(days >= spec_days_before_year(10000));
                assert(total >= spec_days_before_year(10000) * 86400);
            }
            None
        },
        Some((y, m, d)) => {
            proof {
                assert(days < spec_days_before_year(10000)) by {
                    lemma_daynum_bounds(y as int, m as int, d as int);
                    lemma_dby_mono(y as int + 1, 10000);
                }
                assert(total < spec_days_before_year(10000) * 86400);
                let c = spec_civil_ymd(days as int);
                assert(spec_valid_ymd(c.0, c.1, c.2) && spec_day_number(c.0, c.1, c.2)
                    == days as int) by {
                    assert(spec_valid_ymd(y as int, m as int, d as int) && spec_day_number(
                        y as int,
                        m as int,
                        d as int,
                    ) == days as int);
                }
                lemma_civil_unique(c.0, c.1, c.2, y as int, m as int, d as int);
            }
            let hh: u64 = tod / 3600;
            let mm: u64 = (tod % 3600) / 60;
            let ss: u64 = tod % 60;
            let mut ds = format_u64_pad(y as u64, 4);
            let p1 = format_u64_pad(m as u64, 2);
            ds.append(p1.as_str());
            let p2 = format_u64_pad(d as u64, 2);
            ds.append(p2.as_str());
            let mut ts = format_u64_pad(hh, 2);
            let p3 = format_u64_pad(mm, 2);
            ts.append(p3.as_str());
            let p4 = format_u64_pad(ss, 2);
            ts.append(p4.as_str());
            Some((ds, ts))
        },
    }
}

// ---------- the machine's local time reckoning ----------

/// An offset chrono can hand out: strictly within a day of UTC.
pub open spec fn spec_offset_ok(off: int) -> bool {
    -86400 < off < 86400
}

/// Relies on chrono's `TimeZone::timestamp_opt` on `Local` and on
/// `FixedOffset::local_minus_utc`: for a second count chrono accepts, the
/// documented number of seconds to add to UTC to reach this machine's
/// local civil time; chrono constructs offsets only strictly between
/// -86400 and 86400 seconds.
#[verifier::external_body]
fn local_utc_offset(secs: i64) -> (r: Option<i32>)
    ensures
        r matches Some(off) ==> spec_offset_ok(off as int),
{
    match chrono::TimeZone::timestamp_opt(&chrono::Local, secs, 0) {
        chrono::LocalResult::Single(dt) => Some(dt.offset().local_minus_utc()),
        _ => None,
    }
}

/// The `YYYYMMDDHHMMSS` text a raw second count renders to under a local
/// offset: empty when the zone lookup failed or the moment falls outside
/// the covered range.
pub open spec fn spec_secs_stamp(t: int, off: Option<int>) -> Seq<char> {
    match off {
        Some(o) => if spec_in_civil_range(t + o) {
            spec_date_digits(t + o) + spec_time_digits(t + o)
        } else {
            Seq::empty()
        },
        None => Seq::empty(),
    }
}

/// Renders a raw second count as a local `YYYYMMDDHHMMSS` stamp, or
/// empty.
pub fn local_stamp14(t: i64) -> (r: (String, Ghost<Option<int>>))
    ensures
        spec_off_ok(r.1@),
        r.0@ == spec_secs_stamp(t as int, r.1@),
{
    let ghost gnone: Option<int> = None;
    match local_utc_offset(t) {
        None => (String::new(), Ghost(gnone)),
        Some(off) => {
            let ghost goff: Option<int> = Some(off as int);
            if t < -86400 || t > 254000000000i64 {
                proof {
                    lemma_dby_upper(10000);
                    assert(!spec_in_civil_range(t + off));
                }
                (String::new(), Ghost(goff))
            } else {
                let total = t + (off as i64);
                if total < 0 {
                    (String::new(), Ghost(goff))
                } else {
                    match format_datetime(total) {
                        Some(p) => {
                            let mut s = p.0;
                            s.append(p.1.as_str());
                            proof {
                                assert(s@ =~= spec_secs_stamp(t as int, goff));
                            }
                            (s, Ghost(goff))
                        },
                        None => (String::new(), Ghost(goff)),
                    }
                }
            }
        },
    }
}

// ---------- timestamp rendering for records ----------

/// The embedded timestamp's whole seconds, when they also fit the
/// machine integer the parser hands back.
pub open spec fn spec_ts_secs_clamped(rec: Rec) -> Option<int> {
    match rec.spec_ts_secs() {
        Some(v) => if i64::MIN <= v <= i64::MAX {
            Some(v)
        } else {
            None
        },
        None => None,
    }
}

/// Whether local seconds fall in the range the fixed-width formats
/// cover: from the epoch to the year 10000.
pub open spec fn spec_in_civil_range(total: int) -> bool {
    0 <= total && total < spec_days_before_year(10000) * 86400
}

/// The date a record's timestamp reads as under local offset `off`:
/// empty when the record has no usable timestamp, when the zone lookup
/// failed, or when the moment falls outside the covered range.
pub open spec fn spec_date_out(rec: Rec, off: Option<int>) -> Seq<char> {
    match spec_ts_secs_clamped(rec) {
        Some(n) => match off {
            Some(o) => if spec_in_civil_range(n + o) {
                spec_date_digits(n + o)
            } else {
                Seq::empty()
            },
            None => Seq::empty(),
        },
        None => Seq::empty(),
    }
}

pub open spec fn spec_time_out(rec: Rec, off: Option<int>) -> Seq<char> {
    match spec_ts_secs_clamped(rec) {
        Some(n) => match off {
            Some(o) => if spec_in_civil_range(n + o) {
                spec_time_digits(n + o)
            } else {
                Seq::empty()
            },
            None => Seq::empty(),
        },
        None => Seq::empty(),
    }
}

/// Date, time of day, and the timestamp's fraction text, joined as one
/// `YYYYMMDDHHMMSS.frac` stamp.
pub open spec fn spec_stamp_out(rec: Rec, off: Option<int>) -> Seq<char> {
    match spec_ts_secs_clamped(rec) {
        Some(n) => match off {
            Some(o) => if spec_in_civil_range(n + o) {
                spec_date_digits(n + o) + spec_time_digits(n + o) + "."@ + rec.spec_ts_frac()
            } else {
                Seq::empty()
            },
            None => Seq::empty(),
        },
        None => Seq::empty(),
    }
}

/// An offset chrono could have handed out for this record: either the
/// zone lookup failed, or it gave an in-bounds offset.
pub open spec fn spec_off_ok(off: Option<int>) -> bool {
    match off {
        Some(o) => spec_offset_ok(o),
        None => true,
    }
}

/// The local second count the record's timestamp reads as under `off`,
/// when everything about it is usable.
pub open spec fn spec_total_witness(rec: Rec, off: Option<int>, t: int) -> bool {
    &&& off matches Some(o) && spec_offset_ok(o) && match spec_ts_secs_clamped(rec) {
        Some(n) => t == n + o && spec_in_civil_range(t),
        None => false,
    }
}

/// An offset under which the record renders as nothing.
pub open spec fn spec_empty_witness(rec: Rec, off: Option<int>) -> bool {
    &&& spec_off_ok(off)
    &&& spec_date_out(rec, off) == Seq::<char>::empty()
    &&& spec_time_out(rec, off) == Seq::<char>::empty()
    &&& spec_stamp_out(rec, off) == Seq::<char>::empty()
}

impl Rec {
    /// The record's timestamp converted to local seconds, when the
    /// machine's zone gives one and the moment is on or after the epoch.
    fn local_total(&self) -> (r: (Option<i64>, Ghost<Option<int>>))
        ensures
            r.0 is Some ==> spec_total_witness(*self, r.1@, r.0->0 as int),
            r.0 is None ==> spec_empty_witness(*self, r.1@),
    {
        let ghost gnone: Option<int> = None;
        match self.ts_secs() {
            None => {
                proof {
                    assert(spec_empty_witness(*self, gnone));
                }
                (None, Ghost(gnone))
            },
            Some(n) => {
                match local_utc_offset(n) {
                    None => {
                        proof {
                            assert(spec_empty_witness(*self, gnone));
                        }
                        (None, Ghost(gnone))
                    },
                    Some(off) => {
                        let ghost goff: Option<int> = Some(off as int);
                        if n < -86400 || n > 254000000000i64 {
                            proof {
                                lemma_dby_upper(10000);
                                assert(!spec_in_civil_range(n + off));
                                assert(spec_empty_witness(*self, goff));
                            }
                            (None, Ghost(goff))
                        } else {
                            let total = n + (off as i64);
                            if total < 0 {
                                proof {
                                    assert(spec_empty_witness(*self, goff));
                                }
                                (None, Ghost(goff))
                            } else {
                                if civil_in_range(total) {
                                    proof {
                                        assert(spec_total_witness(*self, goff, total as int));
                                    }
                                    (Some(total), Ghost(goff))
                                } else {
                                    proof {
                                        assert(spec_empty_witness(*self, goff));
                                    }
                                    (None, Ghost(goff))
                                }
                            }
                        }
                    },
                }
            },
        }
    }

    /// The `YYYYMMDD` local date of the record's timestamp, or empty.
    pub fn get_date(&self) -> (r: String)
        ensures
            exists|off: Option<int>| spec_off_ok(off) && r@ == spec_date_out(*self, off),
    {
        let (tot, w) = self.local_total();
        match tot {
            None => {
                let r = String::new();
                proof {
                    assert(spec_off_ok(w@) && r@ == spec_date_out(*self, w@));
                }
                r
            },
            Some(total) => {
                match format_datetime(total) {
                    Some(p) => {
                        proof {
                            assert(spec_off_ok(w@) && p.0@ == spec_date_out(*self, w@));
                        }
                        p.0
                    },
                    None => {
                        proof {
                            assert(false);
                        }
                        String::new()
                    },
                }
            },
        }
    }

    /// The `HHMMSS` local time of day of the record's timestamp, or
    /// empty.
    pub fn get_time(&self) -> (r: String)
        ensures
            exists|off: Option<int>| spec_off_ok(off) && r@ == spec_time_out(*self, off),
    {
        let (tot, w) = self.local_total();
        match tot {
            None => {
                let r = String::new();
                proof {
                    assert(spec_off_ok(w@) && r@ == spec_time_out(*self, w@));
                }
                r
            },
            Some(total) => {
                match format_datetime(total) {
                    Some(p) => {
                        proof {
                            assert(spec_off_ok(w@) && p.1@ == spec_time_out(*self, w@));
                        }
                        p.1
                    },
                    None => {
                        proof {
                            assert(false);
                        }
                        String::new()
                    },
                }
            },
        }
    }

    /// The full `YYYYMMDDHHMMSS.frac` local stamp of the record's
    /// timestamp, or empty.
    pub fn get_timestamp(&self) -> (r: String)
        ensures
            exists|off: Option<int>| spec_off_ok(off) && r@ == spec_stamp_out(*self, off),
    {
        let (tot, w) = self.local_total();
        match tot {
            None => {
                let r = String::new();
                proof {
                    assert(spec_off_ok(w@) && r@ == spec_stamp_out(*self, w@));
                }
                r
            },
            Some(total) => {
                match format_datetime(total) {
                    Some(p) => {
                        let mut s = p.0;
                        s.append(p.1.as_str());
                        s.append(".");
                        if self.toks.len() > 3 {
                            let parts = crate::strutil::split_char(self.toks[3].as_str(), '.');
                            proof {
                                crate::strutil::lemma_split_len(self.spec_field(3), '.');
                            }
                            if parts.len() > 1 {
                                s.append(parts[1].as_str());
                                proof {
                                    assert(parts@[1]@ == parts.deep_view()[1]);
                                    assert(s@ =~= spec_stamp_out(*self, w@));
                                    assert(spec_off_ok(w@) && s@ == spec_stamp_out(*self, w@));
                                }
                                s
                            } else {
                                proof {
                                    assert(parts.deep_view().len() == parts@.len());
                                    assert(false);
                                }
                                String::new()
                            }
                        } else {
                            proof {
                                assert(false);
                            }
                            String::new()
                        }
                    },
                    None => {
                        proof {
                            assert(false);
                        }
                        String::new()
                    },
                }
            },
        }
    }
}

/// Whether local seconds fall before the year 10000.
fn civil_in_range(total: i64) -> (r: bool)
    requires
        total >= 0,
    ensures
        r == spec_in_civil_range(total as int),
{
    match format_datetime(total) {
        Some(_) => true,
        None => false,
    }
}

} // verus!
