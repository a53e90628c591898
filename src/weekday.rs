//! Days of the week.

use vstd::prelude::*;

verus! {

/// Day of week.
#[derive(Debug, Clone, Copy, PartialEq, Eq, Structural)]
pub enum DayOfWeek {
    /// Sunday.
    Sun,
    /// Monday.
    Mon,
    /// Tuesday.
    Tue,
    /// Wednesday.
    Wed,
    /// Thursday.
    Thu,
    /// Friday.
    Fri,
    /// Saturday.
    Sat,
}

/// The next working day: Monday to Thursday are followed by the next day,
/// Friday, Saturday and Sunday by Monday.
pub fn next_weekday(day: DayOfWeek) -> (r: DayOfWeek)
    ensures
        r == match day {
            DayOfWeek::Mon => DayOfWeek::Tue,
            DayOfWeek::Tue => DayOfWeek::Wed,
            DayOfWeek::Wed => DayOfWeek::Thu,
            DayOfWeek::Thu => DayOfWeek::Fri,
            _ => DayOfWeek::Mon,
        },
{
    match day {
        DayOfWeek::Sun => DayOfWeek::Mon,
        DayOfWeek::Mon => DayOfWeek::Tue,
        DayOfWeek::Tue => DayOfWeek::Wed,
        DayOfWeek::Wed => DayOfWeek::Thu,
        DayOfWeek::Thu => DayOfWeek::Fri,
        DayOfWeek::Fri => DayOfWeek::Mon,
        DayOfWeek::Sat => DayOfWeek::Mon,
    }
}

} // verus!
