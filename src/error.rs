use vstd::prelude::*;

verus! {

/// The per-day fields whose absence or malformation aborts a run.
#[derive(PartialEq, Eq, Structural, Debug, Clone, Copy)]
pub enum Field {
    Sunrise,
    Sunset,
    SolarNoon,
    DayLength,
}

/// Why a run was aborted.
#[derive(PartialEq, Eq, Structural, Debug, Clone, Copy)]
pub enum Error {
    /// A textual time value has no numeric hour and minute parts.
    Parse,
    /// A time field that the pipeline reads is absent.
    MissingField(Field),
}

} // verus!
