//! The calendar model: a year-scale grid of day/count entries.

use vstd::prelude::*;

verus! {

/// One day of activity: a date in `YYYY-MM-DD` form and a non-negative count.
#[derive(Debug, PartialEq)]
pub struct ContributionDay {
    pub date: String,
    pub contribution_count: u32,
}

/// One column of the heatmap: up to seven consecutive days, ascending.
#[derive(Debug, PartialEq)]
pub struct Week {
    pub contribution_days: Vec<ContributionDay>,
}

/// The whole grid: weeks ascending by time; may be empty.
#[derive(Debug, PartialEq)]
pub struct ContributionCalendar {
    pub weeks: Vec<Week>,
}

/// Mathematical image of a `ContributionDay`.
#[verifier::ext_equal]
pub ghost struct DayV {
    pub date: Seq<char>,
    pub count: u32,
}

impl View for ContributionDay {
    type V = DayV;

    open spec fn view(&self) -> DayV {
        DayV { date: self.date@, count: self.contribution_count }
    }
}

impl View for Week {
    type V = Seq<DayV>;

    open spec fn view(&self) -> Seq<DayV> {
        self.contribution_days@.map_values(|d: ContributionDay| d@)
    }
}

impl View for ContributionCalendar {
    type V = Seq<Seq<DayV>>;

    open spec fn view(&self) -> Seq<Seq<DayV>> {
        self.weeks@.map_values(|w: Week| w@)
    }
}

impl Clone for ContributionDay {
    fn clone(&self) -> (r: Self)
        ensures
            r@ == self@,
    {
        ContributionDay { date: self.date.clone(), contribution_count: self.contribution_count }
    }
}

impl Clone for Week {
    fn clone(&self) -> (r: Self)
        ensures
            r@ == self@,
    {
        let mut days: Vec<ContributionDay> = Vec::new();
        let mut i: usize = 0;
        while i < self.contribution_days.len()
            invariant
                i <= self.contribution_days.len(),
                days@.len() == i,
                forall|j: int| 0 <= j < i ==> days@[j]@ == self.contribution_days@[j]@,
            decreases self.contribution_days.len() - i,
        {
            days.push(self.contribution_days[i].clone());
            i += 1;
        }
        let r = Week { contribution_days: days };
        proof {
            assert(r@ =~= self@);
        }
        r
    }
}

impl Clone for ContributionCalendar {
    fn clone(&self) -> (r: Self)
        ensures
            r@ == self@,
    {
        let mut weeks: Vec<Week> = Vec::new();
        let mut i: usize = 0;
        while i < self.weeks.len()
            invariant
                i <= self.weeks.len(),
                weeks@.len() == i,
                forall|j: int| 0 <= j < i ==> weeks@[j]@ == self.weeks@[j]@,
            decreases self.weeks.len() - i,
        {
            weeks.push(self.weeks[i].clone());
            i += 1;
        }
        let r = ContributionCalendar { weeks };
        proof {
            assert(r@ =~= self@);
        }
        r
    }
}

} // verus!
