//! What a printed sheet is told: the user's settings, and where the sheet
//! stands in the day's printing.

pub mod settings;

pub use settings::{MarkerTreatment, Settings, ALL_TREATMENTS, ALWAYS_PRINTED, NEVER_PRINTED};

use vstd::prelude::*;

use crate::date::DeliveryDates;
use crate::route::{lines_on, Route};

verus! {

/// What a sheet says about its place in the day's printing.
#[derive(Debug, Clone)]
pub struct SheetContext {
    pub dates: Option<DeliveryDates>,
    /// 1-based, for `Page 1 of 2`.
    pub page: usize,
    pub pages: usize,
    /// Stops and lines on the whole route, for the masthead counter.
    pub route_stops: usize,
    pub route_lines: usize,
    /// The export's filename, for the footer.
    pub source: String,
}

impl SheetContext {
    /// A route that fits on one page.
    pub fn single(route: &Route, dates: Option<DeliveryDates>, source: &str) -> (context: Self)
        requires
            lines_on(route.stops@) <= usize::MAX,
        ensures
            context.dates == dates,
            context.page == 1,
            context.pages == 1,
            context.route_stops == route.stops@.len(),
            context.route_lines == lines_on(route.stops@),
            context.source@ == source@,
    {
        let mut text = String::new();
        crate::chars::push_str(&mut text, source);
        SheetContext {
            dates,
            page: 1,
            pages: 1,
            route_stops: route.stops.len(),
            route_lines: route.line_count(),
            source: text,
        }
    }

    /// Whether this sheet carries on from an earlier one.
    pub fn is_continuation(&self) -> (continuation: bool)
        ensures
            continuation == (self.page > 1),
    {
        self.page > 1
    }

    /// Whether another sheet follows this one.
    pub fn continues(&self) -> (more: bool)
        ensures
            more == (self.page < self.pages),
    {
        self.page < self.pages
    }
}

} // verus!
