//! The four steps the window walks the user through, and what they choose
//! between.

use std::collections::BTreeSet;

use vstd::prelude::*;

use crate::date::DeliveryDates;
use crate::order::Order;
use crate::route::Route;
use crate::sheet::SheetRow;
use crate::validate::{group_keys, groups, Finding, Grouping, Severity};

verus! {

/// Which of the four steps the user is on.
#[derive(Debug, Clone, Copy, PartialEq, Eq, Structural, PartialOrd, Ord)]
pub enum Step {
    Open,
    Check,
    Configure,
    Print,
}

/// The steps in the order they come.
pub const ALL_STEPS: [Step; 4] = [Step::Open, Step::Check, Step::Configure, Step::Print];

impl Step {
    /// Where a step stands among the four, from zero.
    pub open spec fn position(self) -> int {
        match self {
            Step::Open => 0,
            Step::Check => 1,
            Step::Configure => 2,
            Step::Print => 3,
        }
    }

    /// `01`..`04`, as the rail sets them.
    pub fn number(self) -> (number: &'static str)
        ensures
            number@ == match self {
                Step::Open => "01"@,
                Step::Check => "02"@,
                Step::Configure => "03"@,
                Step::Print => "04"@,
            },
    {
        match self {
            Step::Open => "01",
            Step::Check => "02",
            Step::Configure => "03",
            Step::Print => "04",
        }
    }

    /// The step's name.
    pub fn label(self) -> (label: &'static str)
        ensures
            label@ == match self {
                Step::Open => "Open"@,
                Step::Check => "Check"@,
                Step::Configure => "Configure"@,
                Step::Print => "Print"@,
            },
    {
        match self {
            Step::Open => "Open",
            Step::Check => "Check",
            Step::Configure => "Configure",
            Step::Print => "Print",
        }
    }

    /// The step before this one, if there is one.
    pub open spec fn before(self) -> Option<Step> {
        match self {
            Step::Open => None,
            Step::Check => Some(Step::Open),
            Step::Configure => Some(Step::Check),
            Step::Print => Some(Step::Configure),
        }
    }

    /// The step after this one, if there is one.
    pub open spec fn after(self) -> Option<Step> {
        match self {
            Step::Open => Some(Step::Check),
            Step::Check => Some(Step::Configure),
            Step::Configure => Some(Step::Print),
            Step::Print => None,
        }
    }

    /// The step before this one, if there is one.
    pub fn previous(self) -> (step: Option<Self>)
        ensures
            step == self.before(),
            match step {
                Some(s) => s.position() == self.position() - 1,
                None => self.position() == 0,
            },
    {
        match self {
            Step::Open => None,
            Step::Check => Some(Step::Open),
            Step::Configure => Some(Step::Check),
            Step::Print => Some(Step::Configure),
        }
    }

    /// The step after this one, if there is one.
    pub fn next(self) -> (step: Option<Self>)
        ensures
            step == self.after(),
            match step {
                Some(s) => s.position() == self.position() + 1,
                None => self.position() == 3,
            },
    {
        match self {
            Step::Open => Some(Step::Check),
            Step::Check => Some(Step::Configure),
            Step::Configure => Some(Step::Print),
            Step::Print => None,
        }
    }
}

/// Going forward a step and back again lands where it started, and the other
/// way round: one step is after another exactly when that other is before it.
/// Only the first step has none before it, only the last none after it, and
/// the steps come in the order of [`ALL_STEPS`].
pub proof fn lemma_next_then_previous(step: Step, other: Step)
    ensures
        step.after() == Some(other) <==> other.before() == Some(step),
        step.before() is None <==> step == ALL_STEPS[0],
        step.after() is None <==> step == ALL_STEPS[3],
        forall|i: int| 0 <= i < 4 ==> (#[trigger] ALL_STEPS[i]).position() == i,
{
}

/// An export that has been read: everything the later steps work from.
pub struct Loaded {
    /// Where the file is, as the user would write it.
    pub path: String,
    /// The file's own name, the last part of its path.
    pub name: String,
    pub rows: Vec<SheetRow>,
    pub orders: Vec<Order>,
    pub routes: Vec<Route>,
    pub findings: Vec<Finding>,
    pub dates: Option<DeliveryDates>,
}

impl Loaded {
    /// The file's name, for headings and the footer.
    pub fn filename(&self) -> (name: String)
        ensures
            name@ == self.name@,
    {
        let mut name = String::new();
        crate::chars::push_str(&mut name, self.name.as_str());
        name
    }

    /// How many different breads the file lists.
    pub fn products(&self) -> (count: usize)
        ensures
            count == groups(self.rows@, Grouping::Product).len(),
    {
        group_keys(&self.rows, Grouping::Product).len()
    }

    /// How many of the file's findings block printing.
    pub fn blocking_count(&self) -> (count: usize)
        ensures
            count == self.findings@.filter(|f: Finding| f.severity == Severity::Blocking).len(),
    {
        let ghost blocking = |f: Finding| f.severity == Severity::Blocking;
        let mut count: usize = 0;
        let mut i: usize = 0;
        while i < self.findings.len()
            invariant
                blocking == (|f: Finding| f.severity == Severity::Blocking),
                0 <= i <= self.findings@.len(),
                count == self.findings@.take(i as int).filter(blocking).len(),
                count <= i,
            decreases self.findings@.len() - i,
        {
            proof {
                assert(self.findings@.take(i + 1) =~= self.findings@.take(i as int).push(self.findings@[i as int]));
                self.findings@.take(i as int).lemma_filter_push(self.findings@[i as int], blocking);
            }
            if self.findings[i].severity == Severity::Blocking {
                count = count + 1;
            }
            i = i + 1;
        }
        proof {
            assert(self.findings@.take(i as int) =~= self.findings@);
        }
        count
    }
}

/// Which routes are selected by default: all of them.
pub fn everything(routes: &[Route]) -> (chosen: BTreeSet<String>)
    ensures
        chosen@.map(|name: String| name@) == routes@.map_values(|route: Route| route.nickname@).to_set(),
{
    let mut chosen: BTreeSet<String> = BTreeSet::new();
    let ghost names = routes@.map_values(|route: Route| route.nickname@);
    let mut i: usize = 0;
    while i < routes.len()
        invariant
            0 <= i <= routes@.len(),
            names == routes@.map_values(|route: Route| route.nickname@),
            chosen@.map(|name: String| name@) == names.take(i as int).to_set(),
        decreases routes@.len() - i,
    {
        let name = routes[i].nickname.clone();
        choose_route(&mut chosen, name);
        proof {
            assert(names.take(i + 1) =~= names.take(i as int).push(names[i as int]));
            lemma_push_to_set(names.take(i as int), names[i as int]);
        }
        i = i + 1;
    }
    proof {
        assert(names.take(routes@.len() as int) =~= names);
    }
    chosen
}

proof fn lemma_push_to_set(s: Seq<Seq<char>>, x: Seq<char>)
    ensures
        s.push(x).to_set() == s.to_set().insert(x),
{
    assert forall|y: Seq<char>| s.push(x).to_set().contains(y) <==> s.to_set().insert(x).contains(y) by {
        if s.push(x).contains(y) {
            let k = choose|k: int| 0 <= k < s.push(x).len() && s.push(x)[k] == y;
            if k < s.len() {
                assert(s[k] == y);
            }
        }
        if s.contains(y) {
            let k = choose|k: int| 0 <= k < s.len() && s[k] == y;
            assert(s.push(x)[k] == y);
        }
        if y == x {
            assert(s.push(x)[s.len() as int] == y);
        }
    }
    assert(s.push(x).to_set() =~= s.to_set().insert(x));
}

/// Adds a route to a selection.
///
/// Wraps `BTreeSet::insert`; the contract claims what its documentation
/// says: afterwards the set holds the name, and otherwise what it held
/// before, names compared by their text.
#[verifier::external_body]
fn choose_route(chosen: &mut BTreeSet<String>, name: String)
    ensures
        final(chosen)@.map(|s: String| s@) == old(chosen)@.map(|s: String| s@).insert(name@),
{
    chosen.insert(name);
}

} // verus!
