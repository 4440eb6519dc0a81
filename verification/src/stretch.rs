use vstd::prelude::*;

verus! {

/// A range of time units: from `start` (inclusive) to `end` (exclusive).
#[derive(Debug, Clone, Copy, PartialEq, Eq, Structural, Hash, PartialOrd, Ord)]
pub struct StretchRange {
    start: u8,
    end: u8,
}

impl StretchRange {
    #[verifier::type_invariant]
    spec fn inv(&self) -> bool {
        self.start <= self.end
    }

    /// The first unit of the range.
    pub closed spec fn spec_start(&self) -> u8 {
        self.start
    }

    /// The unit just past the range.
    pub closed spec fn spec_end(&self) -> u8 {
        self.end
    }

    /// The range from `start` to `end`.
    pub fn new(start: u8, end: u8) -> (r: StretchRange)
        requires
            start <= end,
        ensures
            r.spec_start() == start,
            r.spec_end() == end,
    {
        StretchRange { start, end }
    }

    /// The first unit of the range.
    pub fn start(&self) -> (r: u8)
        ensures
            r == self.spec_start(),
            self.spec_start() <= self.spec_end(),
    {
        proof { use_type_invariant(self); }
        self.start
    }

    /// The unit just past the range.
    pub fn end(&self) -> (r: u8)
        ensures
            r == self.spec_end(),
    {
        self.end
    }

    /// The number of units of the range.
    pub fn duration(&self) -> (r: u8)
        ensures
            r == self.spec_end() - self.spec_start(),
    {
        proof { use_type_invariant(self); }
        self.end - self.start
    }

    /// Whether unit `index` lies in the range.
    pub fn contains(&self, index: u8) -> (r: bool)
        ensures
            r == (self.spec_start() <= index < self.spec_end()),
    {
        index >= self.start && index < self.end
    }

    /// Whether the two ranges share a unit.
    pub fn overlaps(&self, other: &StretchRange) -> (r: bool)
        ensures
            r == ranges_overlap(*self, *other),
    {
        self.start < other.end && other.start < self.end
    }

    /// The start and end of the range in seconds, counted in `unit`.
    pub fn seconds(&self, unit: StretchUnit) -> (r: (u64, u64))
        ensures
            r.0 == self.spec_start() * unit_seconds(unit),
            r.1 == self.spec_end() * unit_seconds(unit),
    {
        let s = unit.seconds();
        proof {
            assert(self.start * s <= 255 * 63113904) by (nonlinear_arith)
                requires self.start <= 255, s <= 63113904;
            assert(self.end * s <= 255 * 63113904) by (nonlinear_arith)
                requires self.end <= 255, s <= 63113904;
        }
        (self.start as u64 * s, self.end as u64 * s)
    }
}

/// Whether two ranges share a unit.
pub open spec fn ranges_overlap(a: StretchRange, b: StretchRange) -> bool {
    a.spec_start() < b.spec_end() && b.spec_start() < a.spec_end()
}

/// The unit of time that stretches are measured in.
#[derive(Debug, Clone, Copy, PartialEq, Eq, Structural, Hash, PartialOrd, Ord)]
pub enum StretchUnit {
    Hours,
    Days,
    Weeks,
    BiWeeks,
    Months,
    BiMonths,
    Quarters,
    BiQuarters,
    Years,
    BiYears,
}

/// The number of seconds in a unit.
pub open spec fn unit_seconds(u: StretchUnit) -> u64 {
    match u {
        StretchUnit::Hours => 3600,
        StretchUnit::Days => 86400,
        StretchUnit::Weeks => 604800,
        StretchUnit::BiWeeks => 1209600,
        StretchUnit::Months => 2629746,
        StretchUnit::BiMonths => 5259492,
        StretchUnit::Quarters => 7889238,
        StretchUnit::BiQuarters => 15778476,
        StretchUnit::Years => 31556952,
        StretchUnit::BiYears => 63113904,
    }
}

/// The units that a grid may be measured in, from the smallest up.
pub open spec fn grid_units() -> Seq<StretchUnit> {
    seq![
        StretchUnit::Days,
        StretchUnit::Weeks,
        StretchUnit::BiWeeks,
        StretchUnit::Months,
        StretchUnit::BiMonths,
        StretchUnit::Quarters,
        StretchUnit::BiQuarters,
        StretchUnit::Years,
        StretchUnit::BiYears,
    ]
}

/// Every unit, from the shortest to the longest.
pub open spec fn all_units() -> Seq<StretchUnit> {
    seq![StretchUnit::Hours].add(grid_units())
}

/// How far `avg` lies from the length of `u`.
pub open spec fn distance(avg: u64, u: StretchUnit) -> int {
    if avg >= unit_seconds(u) {
        avg - unit_seconds(u)
    } else {
        unit_seconds(u) - avg
    }
}

/// The next smaller unit; the smallest stays.
pub open spec fn next_down(u: StretchUnit) -> StretchUnit {
    match u {
        StretchUnit::BiYears => StretchUnit::Years,
        StretchUnit::Years => StretchUnit::BiQuarters,
        StretchUnit::BiQuarters => StretchUnit::Quarters,
        StretchUnit::Quarters => StretchUnit::BiMonths,
        StretchUnit::BiMonths => StretchUnit::Months,
        StretchUnit::Months => StretchUnit::BiWeeks,
        StretchUnit::BiWeeks => StretchUnit::Weeks,
        StretchUnit::Weeks => StretchUnit::Days,
        StretchUnit::Days => StretchUnit::Hours,
        StretchUnit::Hours => StretchUnit::Hours,
    }
}

/// `n` steps down from `u`.
pub open spec fn down_n(u: StretchUnit, n: nat) -> StretchUnit
    decreases n,
{
    if n == 0 {
        u
    } else {
        next_down(down_n(u, (n - 1) as nat))
    }
}

/// The largest grid unit no longer than `avg`, or days when none is.
pub open spec fn largest_unit_within(avg: u64) -> StretchUnit {
    if avg >= 63113904 {
        StretchUnit::BiYears
    } else if avg >= 31556952 {
        StretchUnit::Years
    } else if avg >= 15778476 {
        StretchUnit::BiQuarters
    } else if avg >= 7889238 {
        StretchUnit::Quarters
    } else if avg >= 5259492 {
        StretchUnit::BiMonths
    } else if avg >= 2629746 {
        StretchUnit::Months
    } else if avg >= 1209600 {
        StretchUnit::BiWeeks
    } else if avg >= 604800 {
        StretchUnit::Weeks
    } else {
        StretchUnit::Days
    }
}

/// The grid unit chosen for an average is the largest unit from days up
/// that is no longer than the average (days when none is): no longer unit
/// from days up fits the average.
pub proof fn lemma_largest_unit_within(avg: u64)
    ensures
        largest_unit_within(avg) != StretchUnit::Hours,
        unit_seconds(largest_unit_within(avg)) <= avg || (largest_unit_within(avg) == StretchUnit::Days && avg < 86400),
        forall|u: StretchUnit| u != StretchUnit::Hours && #[trigger] unit_seconds(u) <= avg
            ==> unit_seconds(u) <= unit_seconds(largest_unit_within(avg)),
{
    assert forall|u: StretchUnit| u != StretchUnit::Hours && #[trigger] unit_seconds(u) <= avg
        implies unit_seconds(u) <= unit_seconds(largest_unit_within(avg)) by {
        match u {
            StretchUnit::Hours => {},
            StretchUnit::Days => {},
            StretchUnit::Weeks => {},
            StretchUnit::BiWeeks => {},
            StretchUnit::Months => {},
            StretchUnit::BiMonths => {},
            StretchUnit::Quarters => {},
            StretchUnit::BiQuarters => {},
            StretchUnit::Years => {},
            StretchUnit::BiYears => {},
        }
    }
}

/// One step down from a unit above hours is the next shorter unit: shorter,
/// with no unit in between.
pub proof fn lemma_next_down(u: StretchUnit)
    requires
        u != StretchUnit::Hours,
    ensures
        unit_seconds(next_down(u)) < unit_seconds(u),
        forall|v: StretchUnit| !(unit_seconds(next_down(u)) < #[trigger] unit_seconds(v) && unit_seconds(v) < unit_seconds(u)),
{
    assert forall|v: StretchUnit| !(unit_seconds(next_down(u)) < #[trigger] unit_seconds(v) && unit_seconds(v) < unit_seconds(u)) by {
        match v {
            StretchUnit::Hours => {},
            StretchUnit::Days => {},
            StretchUnit::Weeks => {},
            StretchUnit::BiWeeks => {},
            StretchUnit::Months => {},
            StretchUnit::BiMonths => {},
            StretchUnit::Quarters => {},
            StretchUnit::BiQuarters => {},
            StretchUnit::Years => {},
            StretchUnit::BiYears => {},
        }
    }
}

impl StretchUnit {
    /// The number of seconds in the unit.
    pub fn seconds(&self) -> (r: u64)
        ensures
            r == unit_seconds(*self),
    {
        match self {
            StretchUnit::Hours => 3600,
            StretchUnit::Days => 86400,
            StretchUnit::Weeks => 604800,
            StretchUnit::BiWeeks => 1209600,
            StretchUnit::Months => 2629746,
            StretchUnit::BiMonths => 5259492,
            StretchUnit::Quarters => 7889238,
            StretchUnit::BiQuarters => 15778476,
            StretchUnit::Years => 31556952,
            StretchUnit::BiYears => 63113904,
        }
    }

    /// The unit closest to `average_seconds`; of two equally close, the smaller.
    pub fn from_average_seconds(average_seconds: u64) -> (r: StretchUnit)
        ensures
            all_units().contains(r),
            forall|i: int| 0 <= i < 10 ==> distance(average_seconds, r) <= distance(average_seconds, #[trigger] all_units()[i]),
            forall|i: int| 0 <= i < 10 && distance(average_seconds, r) == distance(average_seconds, #[trigger] all_units()[i])
                ==> unit_seconds(r) <= unit_seconds(all_units()[i]),
    {
        let units: [StretchUnit; 10] = [
            StretchUnit::Hours,
            StretchUnit::Days,
            StretchUnit::Weeks,
            StretchUnit::BiWeeks,
            StretchUnit::Months,
            StretchUnit::BiMonths,
            StretchUnit::Quarters,
            StretchUnit::BiQuarters,
            StretchUnit::Years,
            StretchUnit::BiYears,
        ];
        proof {
            assert(units@ =~= all_units());
        }
        let mut best = StretchUnit::Hours;
        let mut best_diff: u64 = if average_seconds >= 3600 { average_seconds - 3600 } else { 3600 - average_seconds };
        let mut i: usize = 1;
        while i < 10
            invariant
                1 <= i <= 10,
                units@ == all_units(),
                best_diff == distance(average_seconds, best),
                exists|k: int| 0 <= k < i && units@[k] == best,
                forall|k: int| 0 <= k < i ==> best_diff <= distance(average_seconds, #[trigger] units@[k]),
                forall|k: int| 0 <= k < i && best_diff == distance(average_seconds, #[trigger] units@[k])
                    ==> unit_seconds(best) <= unit_seconds(units@[k]),
            decreases 10 - i,
        {
            let unit = units[i];
            let s = unit.seconds();
            let diff: u64 = if average_seconds >= s { average_seconds - s } else { s - average_seconds };
            if diff < best_diff || (diff == best_diff && s < best.seconds()) {
                best = unit;
                best_diff = diff;
            }
            i = i + 1;
        }
        proof {
            let k = choose|k: int| 0 <= k < 10 && units@[k] == best;
            assert(all_units()[k] == best);
        }
        best
    }

    /// The largest grid unit no longer than `average_seconds` (days when
    /// none is), then one unit down, for a finer grid.
    pub fn canonical_from_average_seconds(average_seconds: u64) -> (r: StretchUnit)
        ensures
            r == next_down(largest_unit_within(average_seconds)),
            largest_unit_within(average_seconds) != StretchUnit::Hours,
            unit_seconds(largest_unit_within(average_seconds)) <= average_seconds
                || (largest_unit_within(average_seconds) == StretchUnit::Days && average_seconds < 86400),
            forall|u: StretchUnit| u != StretchUnit::Hours && #[trigger] unit_seconds(u) <= average_seconds
                ==> unit_seconds(u) <= unit_seconds(largest_unit_within(average_seconds)),
            unit_seconds(r) < unit_seconds(largest_unit_within(average_seconds)),
            forall|v: StretchUnit| !(unit_seconds(r) < #[trigger] unit_seconds(v)
                && unit_seconds(v) < unit_seconds(largest_unit_within(average_seconds))),
    {
        proof {
            lemma_largest_unit_within(average_seconds);
            lemma_next_down(largest_unit_within(average_seconds));
        }
        let units: [StretchUnit; 9] = [
            StretchUnit::Days,
            StretchUnit::Weeks,
            StretchUnit::BiWeeks,
            StretchUnit::Months,
            StretchUnit::BiMonths,
            StretchUnit::Quarters,
            StretchUnit::BiQuarters,
            StretchUnit::Years,
            StretchUnit::BiYears,
        ];
        let mut canonical = StretchUnit::Days;
        let mut i: usize = 0;
        while i < 9
            invariant
                i <= 9,
                units@ == grid_units(),
                i == 0 ==> canonical == StretchUnit::Days,
                i > 0 ==> canonical == units@[i - 1],
                forall|k: int| 0 <= k < i ==> unit_seconds(#[trigger] units@[k]) <= average_seconds,
            ensures
                i <= 9,
                i == 0 ==> canonical == StretchUnit::Days,
                i > 0 ==> canonical == units@[i - 1],
                forall|k: int| 0 <= k < i ==> unit_seconds(#[trigger] units@[k]) <= average_seconds,
                i == 9 || unit_seconds(units@[i as int]) > average_seconds,
            decreases 9 - i,
        {
            let unit = units[i];
            if unit.seconds() <= average_seconds {
                canonical = unit;
            } else {
                break;
            }
            i = i + 1;
        }
        proof {
            assert(canonical == largest_unit_within(average_seconds)) by {
                if i < 9 {
                    assert(unit_seconds(units@[i as int]) > average_seconds);
                }
                if i > 0 {
                    assert(unit_seconds(units@[i - 1]) <= average_seconds);
                }
            }
            assert(down_n(canonical, 1) == next_down(down_n(canonical, 0)));
        }
        canonical.down(1)
    }

    /// The next smaller unit; hours stay hours.
    pub fn down_to_next_unit(&self) -> (r: StretchUnit)
        ensures
            r == next_down(*self),
    {
        match self {
            StretchUnit::BiYears => StretchUnit::Years,
            StretchUnit::Years => StretchUnit::BiQuarters,
            StretchUnit::BiQuarters => StretchUnit::Quarters,
            StretchUnit::Quarters => StretchUnit::BiMonths,
            StretchUnit::BiMonths => StretchUnit::Months,
            StretchUnit::Months => StretchUnit::BiWeeks,
            StretchUnit::BiWeeks => StretchUnit::Weeks,
            StretchUnit::Weeks => StretchUnit::Days,
            StretchUnit::Days => StretchUnit::Hours,
            StretchUnit::Hours => StretchUnit::Hours,
        }
    }

    /// The unit `n` steps down.
    pub fn down(&self, n: u8) -> (r: StretchUnit)
        ensures
            r == down_n(*self, n as nat),
    {
        let mut d = *self;
        let mut i: u8 = 0;
        while i < n
            invariant
                i <= n,
                d == down_n(*self, i as nat),
            decreases n - i,
        {
            d = d.down_to_next_unit();
            i = i + 1;
        }
        d
    }
}

/// A range of time units together with the unit.
#[derive(Debug, Clone, Copy, PartialEq, Eq, Structural, Hash, PartialOrd, Ord)]
pub struct Stretch {
    pub range: StretchRange,
    pub unit: StretchUnit,
}

impl Stretch {
    /// The stretch over `range`, counted in `unit`.
    pub fn new(range: StretchRange, unit: StretchUnit) -> (r: Stretch)
        ensures
            r.range == range,
            r.unit == unit,
    {
        Stretch { range, unit }
    }

    /// The range of units.
    pub fn range(&self) -> (r: &StretchRange)
        ensures
            *r == self.range,
    {
        &self.range
    }

    /// The unit.
    pub fn unit(&self) -> (r: StretchUnit)
        ensures
            r == self.unit,
    {
        self.unit
    }

    /// The first unit.
    pub fn start(&self) -> (r: u8)
        ensures
            r == self.range.spec_start(),
    {
        self.range.start()
    }

    /// The unit just past the stretch.
    pub fn end(&self) -> (r: u8)
        ensures
            r == self.range.spec_end(),
    {
        self.range.end()
    }

    /// The number of units.
    pub fn duration(&self) -> (r: u8)
        ensures
            r == self.range.spec_end() - self.range.spec_start(),
    {
        self.range.duration()
    }

    /// Whether the two stretches share a unit of the same kind.
    pub fn overlaps(&self, other: &Stretch) -> (r: bool)
        ensures
            r == (self.unit == other.unit && ranges_overlap(self.range, other.range)),
    {
        self.unit == other.unit && self.range.overlaps(&other.range)
    }

    /// The start and end in seconds.
    pub fn seconds(&self) -> (r: (u64, u64))
        ensures
            r.0 == self.range.spec_start() * unit_seconds(self.unit),
            r.1 == self.range.spec_end() * unit_seconds(self.unit),
    {
        self.range.seconds(self.unit)
    }

    /// The start and end counted in another unit, rounded down.
    pub fn scale(&self, unit: StretchUnit) -> (r: (u64, u64))
        ensures
            r.0 == (self.range.spec_start() * unit_seconds(self.unit)) as u64 / unit_seconds(unit),
            r.1 == (self.range.spec_end() * unit_seconds(self.unit)) as u64 / unit_seconds(unit),
    {
        let (start, end) = self.seconds();
        let s = unit.seconds();
        (start / s, end / s)
    }
}

} // verus!
