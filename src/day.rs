use vstd::prelude::*;

use crate::error::{Error, Field};
use crate::time_value::{NumOrStr, MAX_MICROS};

verus! {

/// One calendar day of one location.
#[derive(Debug, Clone)]
pub struct Day {
    pub y: u64,
    pub m: u64,
    pub d: u64,
    /// Ordinal day of the year, from 1.
    pub yday: u64,
    pub srise: Option<NumOrStr>,
    pub sset: Option<NumOrStr>,
    pub solnoon: Option<NumOrStr>,
    pub daylen: Option<NumOrStr>,
}

/// The value of a time field in microseconds, or why there is none.
pub open spec fn field_value(t: Option<NumOrStr>, f: Field) -> Result<int, Error> {
    match t {
        None => Err(Error::MissingField(f)),
        Some(v) => match v.numeric() {
            Some(x) => Ok(x),
            None => Err(Error::Parse),
        },
    }
}

pub open spec fn opt_wf(t: Option<NumOrStr>) -> bool {
    match t {
        Some(v) => v.wf(),
        None => true,
    }
}

impl Day {
    /// Every numeric time field lies within the representable range.
    pub open spec fn wf(&self) -> bool {
        opt_wf(self.srise) && opt_wf(self.sset) && opt_wf(self.solnoon) && opt_wf(self.daylen)
    }

    /// The day with sunrise, sunset and solar noon in numeric form and the
    /// daylight length set to sunset minus sunrise; or the first failure, in
    /// the order sunrise, sunset, solar noon.
    pub open spec fn normalized(self) -> Result<Day, Error> {
        let a = field_value(self.srise, Field::Sunrise);
        let b = field_value(self.sset, Field::Sunset);
        let c = field_value(self.solnoon, Field::SolarNoon);
        match a {
            Err(e) => Err(e),
            Ok(rise) => match b {
                Err(e) => Err(e),
                Ok(set) => match c {
                    Err(e) => Err(e),
                    Ok(noon) => Ok(
                        Day {
                            srise: Some(NumOrStr::Num(rise as i64)),
                            sset: Some(NumOrStr::Num(set as i64)),
                            solnoon: Some(NumOrStr::Num(noon as i64)),
                            daylen: Some(NumOrStr::Num((set - rise) as i64)),
                            ..self
                        },
                    ),
                },
            },
        }
    }

    /// Puts the three time fields in numeric form and sets the daylight
    /// length to sunset minus sunrise. On failure the day is left as it was.
    pub fn normalize(&mut self) -> (r: Result<(), Error>)
        requires
            old(self).wf(),
        ensures
            match old(self).normalized() {
                Ok(day) => r is Ok && *final(self) == day,
                Err(e) => r == Err::<(), Error>(e) && *final(self) == *old(self),
            },
    {
        let rise = match num_field(&self.srise, Field::Sunrise) {
            Ok(v) => v,
            Err(e) => return Err(e),
        };
        let set = match num_field(&self.sset, Field::Sunset) {
            Ok(v) => v,
            Err(e) => return Err(e),
        };
        let noon = match num_field(&self.solnoon, Field::SolarNoon) {
            Ok(v) => v,
            Err(e) => return Err(e),
        };
        self.srise = Some(NumOrStr::Num(rise));
        self.sset = Some(NumOrStr::Num(set));
        self.solnoon = Some(NumOrStr::Num(noon));
        self.daylen = Some(NumOrStr::Num(set - rise));
        Ok(())
    }
}

/// The value of a time field, or why there is none.
pub fn num_field(t: &Option<NumOrStr>, f: Field) -> (r: Result<i64, Error>)
    ensures
        match field_value(*t, f) {
            Ok(v) => r == Ok::<i64, Error>(v as i64) && i64::MIN <= v <= i64::MAX && (opt_wf(*t)
                ==> -MAX_MICROS <= v <= MAX_MICROS),
            Err(e) => r == Err::<i64, Error>(e),
        },
{
    match t {
        None => Err(Error::MissingField(f)),
        Some(v) => v.get_num(),
    }
}


/// The field `f` of a day.
pub open spec fn field_of(d: Day, f: Field) -> Option<NumOrStr> {
    match f {
        Field::Sunrise => d.srise,
        Field::Sunset => d.sset,
        Field::SolarNoon => d.solnoon,
        Field::DayLength => d.daylen,
    }
}

/// Day `i` is the first of `days` that fails to normalize, with error `e`.
pub open spec fn first_failure(days: Seq<Day>, i: int, e: Error) -> bool {
    &&& 0 <= i < days.len()
    &&& forall|j: int| 0 <= j < i ==> (#[trigger] days[j]).normalized() is Ok
    &&& days[i].normalized() == Err::<Day, Error>(e)
}

/// Normalizes every day in order; stops at the first day that fails, with
/// its error.
pub fn normalize_days(days: Vec<Day>) -> (r: Result<Vec<Day>, Error>)
    requires
        forall|i: int| 0 <= i < days@.len() ==> (#[trigger] days@[i]).wf(),
    ensures
        match r {
            Ok(out) => out@.len() == days@.len() && forall|i: int|
                0 <= i < days@.len() ==> Ok::<Day, Error>(#[trigger] out@[i])
                    == days@[i].normalized(),
            Err(e) => exists|i: int| #[trigger] first_failure(days@, i, e),
        },
{
    let ghost orig = days@;
    let mut rest = days;
    let mut out: Vec<Day> = Vec::new();
    let n = rest.len();
    let mut i: usize = 0;
    while i < n
        invariant
            n == orig.len(),
            i <= n,
            orig == days@,
            rest@ == orig.subrange(i as int, n as int),
            out@.len() == i,
            forall|k: int| 0 <= k < n ==> (#[trigger] orig[k]).wf(),
            forall|k: int| 0 <= k < i ==> Ok::<Day, Error>(#[trigger] out@[k]) == orig[k].normalized(),
        decreases n - i,
    {
        let mut day = rest.remove(0);
        assert(day == orig[i as int]);
        match day.normalize() {
            Ok(()) => {},
            Err(e) => {
                assert(forall|j: int| 0 <= j < i ==> (#[trigger] orig[j]).normalized() is Ok) by {
                    assert forall|j: int| 0 <= j < i implies (#[trigger] orig[j]).normalized() is Ok by {
                        assert(Ok::<Day, Error>(out@[j]) == orig[j].normalized());
                    }
                }
                assert(orig[i as int].normalized() == Err::<Day, Error>(e));
                assert(first_failure(orig, i as int, e));
                return Err(e);
            },
        }
        out.push(day);
        proof {
            assert(rest@ =~= orig.subrange(i + 1, n as int));
        }
        i = i + 1;
    }
    Ok(out)
}

/// Every day has field `f` in a numeric or readable form.
pub open spec fn series_ok(days: Seq<Day>, f: Field) -> bool {
    forall|i: int| 0 <= i < days.len() ==> (#[trigger] field_value(field_of(days[i], f), f)) is Ok
}

/// The value of field `f` of a day, zero where it has none.
pub open spec fn value_of(d: Day, f: Field) -> int {
    match field_value(field_of(d, f), f) {
        Ok(v) => v,
        Err(_) => 0,
    }
}

/// The series `(value of field f, day of year)` over the days, in order.
pub open spec fn series_seq(days: Seq<Day>, f: Field) -> Seq<(i64, u64)> {
    Seq::new(days.len(), |i: int| (value_of(days[i], f) as i64, days[i].yday))
}

/// Day `i` is the first of `days` whose field `f` fails, with error `e`.
pub open spec fn first_missing(days: Seq<Day>, f: Field, i: int, e: Error) -> bool {
    &&& 0 <= i < days.len()
    &&& forall|j: int| 0 <= j < i ==> (#[trigger] field_value(field_of(days[j], f), f)) is Ok
    &&& field_value(field_of(days[i], f), f) == Err::<int, Error>(e)
}

/// The series `(value, day of year)` of field `f` over the days, in order; or
/// the error of the first day on which the field is absent or malformed.
pub fn series(days: &Vec<Day>, f: Field) -> (r: Result<Vec<(i64, u64)>, Error>)
    ensures
        match r {
            Ok(v) => series_ok(days@, f) && v@ == series_seq(days@, f),
            Err(e) => !series_ok(days@, f) && exists|i: int| #[trigger] first_missing(days@, f, i, e),
        },
{
    let mut out: Vec<(i64, u64)> = Vec::new();
    let mut i: usize = 0;
    while i < days.len()
        invariant
            i <= days@.len(),
            out@.len() == i,
            forall|k: int|
                0 <= k < i ==> field_value(field_of(#[trigger] days@[k], f), f) == Ok::<
                    int,
                    Error,
                >(out@[k].0 as int) && out@[k].1 == days@[k].yday,
            forall|k: int| 0 <= k < i ==> #[trigger] out@[k] == series_seq(days@, f)[k],
        decreases days@.len() - i,
    {
        let day = &days[i];
        let t = match f {
            Field::Sunrise => &day.srise,
            Field::Sunset => &day.sset,
            Field::SolarNoon => &day.solnoon,
            Field::DayLength => &day.daylen,
        };
        match num_field(t, f) {
            Ok(v) => out.push((v, day.yday)),
            Err(e) => {
                assert(forall|j: int|
                    0 <= j < i ==> (#[trigger] field_value(field_of(days@[j], f), f)) is Ok) by {
                    assert forall|j: int| 0 <= j < i implies (#[trigger] field_value(
                        field_of(days@[j], f),
                        f,
                    )) is Ok by {
                        assert(field_value(field_of(days@[j], f), f) == Ok::<int, Error>(
                            out@[j].0 as int,
                        ));
                    }
                }
                assert(first_missing(days@, f, i as int, e));
                return Err(e);
            },
        }
        i = i + 1;
    }
    assert(out@ =~= series_seq(days@, f));
    Ok(out)
}

/// After normalization the daylight length is sunset minus sunrise.
pub proof fn lemma_daylen(d: Day)
    requires
        d.wf(),
    ensures
        match d.normalized() {
            Ok(n) => value_of(n, Field::DayLength) == value_of(n, Field::Sunset) - value_of(
                n,
                Field::Sunrise,
            ) && value_of(n, Field::Sunset) == value_of(d, Field::Sunset) && value_of(
                n,
                Field::Sunrise,
            ) == value_of(d, Field::Sunrise),
            Err(_) => true,
        },
{
}

} // verus!
