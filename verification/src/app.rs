//! The in-memory state the renderer reads.

use crate::config::Config;
use crate::models::ContributionCalendar;
use vstd::prelude::*;

verus! {

/// Which credential field is being edited.
#[derive(PartialEq, Eq, Structural, Clone, Copy, Debug)]
pub enum Focus {
    Username,
    Token,
}

/// The shared state: credentials, the edit focus, and the loaded calendar.
pub struct App {
    pub config: Config,
    pub focus: Focus,
    pub calendar: Option<ContributionCalendar>,
}

impl App {
    /// Fresh state: the given credentials, focus on the identity, and no
    /// calendar yet.
    pub fn new(config: Config) -> (a: App)
        ensures
            a.config == config,
            a.focus == Focus::Username,
            a.calendar is None,
    {
        App { config, focus: Focus::Username, calendar: None }
    }

    /// A completed fetch replaces the calendar, whole; credentials and
    /// focus stay as they were.
    pub fn set_calendar(&mut self, calendar: ContributionCalendar)
        ensures
            final(self).calendar == Some(calendar),
            final(self).config == old(self).config,
            final(self).focus == old(self).focus,
    {
        self.calendar = Some(calendar);
    }
}

} // verus!
