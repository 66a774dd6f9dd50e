use vstd::prelude::*;

verus! {

/// A calendar date at day granularity: the number of whole days since the
/// start of the reference calendar. Callers convert to and from a
/// human-facing form (year, month, day) outside this library.
#[derive(Clone, Copy, PartialEq, Eq, Structural, Debug)]
pub struct Day {
    pub num: u64,
}

impl Day {
    /// The day `offset` days before this one.
    pub fn minus_days(self, offset: u64) -> (r: Day)
        requires
            self.num >= offset,
        ensures
            r.num == self.num - offset,
    {
        Day { num: self.num - offset }
    }
}

} // verus!
