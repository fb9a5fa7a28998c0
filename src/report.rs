use vstd::prelude::*;

use crate::day::{
    field_of, field_value, first_failure, first_missing, normalize_days, series, series_ok, series_seq,
    Day,
};
use crate::error::{Error, Field};
use crate::fit::{extrema_of, fit_spec, track, valid_series, SineFitment, SineFitter};

verus! {

/// One series ready for export: its samples, their extrema and the fitted
/// sinusoid.
#[derive(Debug, Clone)]
pub struct SeriesReport {
    pub field: Field,
    pub samples: Vec<(i64, u64)>,
    pub extrema: SineFitter,
    pub fitment: SineFitment,
}

/// Cycles per year fitted to a field: solar noon swings twice a year, the
/// others once.
pub open spec fn harmonic_of(f: Field) -> u32 {
    if f == Field::SolarNoon {
        2
    } else {
        1
    }
}

/// The days of a year: days of year in 1..=366 and strictly increasing.
pub open spec fn valid_days(days: Seq<Day>) -> bool {
    &&& forall|i: int| 0 <= i < days.len() ==> 1 <= (#[trigger] days[i]).yday <= 366
    &&& forall|i: int| 0 < i < days.len() ==> days[i - 1].yday < (#[trigger] days[i]).yday
}

/// `r` is the report of field `f` over the days.
pub open spec fn report_of(r: SeriesReport, days: Seq<Day>, f: Field) -> bool {
    &&& series_ok(days, f)
    &&& r.field == f
    &&& r.samples@ == series_seq(days, f)
    &&& r.extrema == extrema_of(series_seq(days, f))
    &&& r.fitment == fit_spec(r.extrema, series_seq(days, f), harmonic_of(f))
}

/// The order of the exported series.
pub open spec fn field_at(i: int) -> Field {
    if i == 0 {
        Field::Sunrise
    } else if i == 1 {
        Field::Sunset
    } else if i == 2 {
        Field::SolarNoon
    } else {
        Field::DayLength
    }
}

/// The series at position `k` of the export order is the first that fails,
/// with error `e`.
pub open spec fn first_failed_series(days: Seq<Day>, k: int, e: Error) -> bool {
    &&& 0 <= k < 4
    &&& forall|j: int| 0 <= j < k ==> series_ok(days, #[trigger] field_at(j))
    &&& exists|i: int| #[trigger] first_missing(days, field_at(k), i, e)
}

fn report(days: &Vec<Day>, f: Field) -> (r: Result<SeriesReport, Error>)
    requires
        valid_days(days@),
    ensures
        match r {
            Ok(rep) => report_of(rep, days@, f),
            Err(e) => !series_ok(days@, f) && exists|i: int| #[trigger] first_missing(days@, f, i, e),
        },
{
    let samples = match series(days, f) {
        Ok(v) => v,
        Err(e) => return Err(e),
    };
    let extrema = track(&samples);
    let k: u32 = match f {
        Field::SolarNoon => 2,
        _ => 1,
    };
    proof {
        let s = samples@;
        assert forall|i: int| 0 <= i < s.len() implies 1 <= (#[trigger] s[i]).1 <= 366 by {
            assert(s[i].1 == days@[i].yday);
        }
        assert forall|i: int| 0 < i < s.len() implies s[i - 1].1 < (#[trigger] s[i]).1 by {
            assert(s[i].1 == days@[i].yday);
            assert(s[i - 1].1 == days@[i - 1].yday);
        }
    }
    let fitment = extrema.fit(&samples, k);
    Ok(SeriesReport { field: f, samples, extrema, fitment })
}

/// The four series of a year of days, in the order sunrise, sunset, solar
/// noon, daylight length; or the error of the first series that cannot be
/// read.
pub fn assemble(days: &Vec<Day>) -> (r: Result<Vec<SeriesReport>, Error>)
    requires
        valid_days(days@),
    ensures
        match r {
            Ok(v) => v@.len() == 4 && forall|k: int|
                0 <= k < 4 ==> report_of(
                    #[trigger] v@[k],
                    days@,
                    field_at(k),
                ),
            Err(e) => exists|k: int| #[trigger] first_failed_series(days@, k, e),
        },
{
    let mut out: Vec<SeriesReport> = Vec::new();
    let mut k: usize = 0;
    while k < 4
        invariant
            valid_days(days@),
            k <= 4,
            out@.len() == k,
            forall|j: int|
                0 <= j < k ==> report_of(
                    #[trigger] out@[j],
                    days@,
                    field_at(j),
                ),
        decreases 4 - k,
    {
        let f = if k == 0 {
            Field::Sunrise
        } else if k == 1 {
            Field::Sunset
        } else if k == 2 {
            Field::SolarNoon
        } else {
            Field::DayLength
        };
        assert(f == field_at(k as int));
        match report(days, f) {
            Ok(rep) => out.push(rep),
            Err(e) => {
                assert forall|j: int| 0 <= j < k implies series_ok(days@, #[trigger] field_at(j)) by {
                    assert(report_of(out@[j], days@, field_at(j)));
                }
                assert(first_failed_series(days@, k as int, e));
                return Err(e);
            },
        }
        k = k + 1;
    }
    Ok(out)
}


/// Normalizes a year of days and assembles its four series. Once every day
/// is normalized each series can be read, so the only failure is that of
/// the first day that cannot be normalized.
pub fn normalize_and_assemble(days: Vec<Day>) -> (r: Result<(Vec<Day>, Vec<SeriesReport>), Error>)
    requires
        forall|i: int| 0 <= i < days@.len() ==> (#[trigger] days@[i]).wf(),
        valid_days(days@),
    ensures
        match r {
            Ok((norm, reports)) => {
                &&& norm@.len() == days@.len()
                &&& forall|i: int|
                    0 <= i < days@.len() ==> Ok::<Day, Error>(#[trigger] norm@[i])
                        == days@[i].normalized()
                &&& reports@.len() == 4
                &&& forall|k: int| 0 <= k < 4 ==> report_of(#[trigger] reports@[k], norm@, field_at(k))
            },
            Err(e) => exists|i: int| #[trigger] first_failure(days@, i, e),
        },
{
    let ghost orig = days@;
    let norm = match normalize_days(days) {
        Ok(n) => n,
        Err(e) => return Err(e),
    };
    proof {
        assert forall|i: int| 0 <= i < norm@.len() implies (#[trigger] norm@[i]).yday == orig[i].yday
            by {
            assert(Ok::<Day, Error>(norm@[i]) == orig[i].normalized());
        }
        assert forall|i: int| 0 < i < norm@.len() implies norm@[i - 1].yday < (#[trigger] norm@[
            i
        ]).yday by {
            assert(norm@[i - 1].yday == orig[i - 1].yday);
        }
    }
    match assemble(&norm) {
        Ok(reports) => Ok((norm, reports)),
        Err(e) => {
            proof {
                let k = choose|k: int| #[trigger] first_failed_series(norm@, k, e);
                let i = choose|i: int| #[trigger] first_missing(norm@, field_at(k), i, e);
                assert(Ok::<Day, Error>(norm@[i]) == orig[i].normalized());
                assert(field_value(field_of(norm@[i], field_at(k)), field_at(k)) is Ok);
            }
            Err(e)
        },
    }
}

} // verus!
