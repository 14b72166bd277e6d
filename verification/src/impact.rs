//! What the impact index of a report is.

use crate::name_map::NameMap;
use crate::report::IncidentView;
use crate::report::Ruleset;
use crate::report::RulesetView;
use crate::report::ViolationView;
use vstd::prelude::*;

verus! {

/// The incidents that lie at a location.
pub open spec fn occurs_at(loc: Seq<char>) -> spec_fn(IncidentView) -> bool {
    |i: IncidentView| i.uri == loc
}

impl ViolationView {
    /// Some incident of the violation lies at the location, which is not the empty one.
    pub open spec fn touches(self, loc: Seq<char>) -> bool {
        loc.len() > 0 && exists|j: int| 0 <= j < self.incidents.len()
            && (#[trigger] self.incidents[j]).uri == loc
    }

    /// The violation reduced to its incidents at the location, in their order.
    pub open spec fn at(self, loc: Seq<char>) -> ViolationView {
        self.with_incidents(self.incidents.filter(occurs_at(loc)))
    }
}

impl RulesetView {
    /// Some violation of the rule set touches the location.
    pub open spec fn touches(self, loc: Seq<char>) -> bool {
        exists|n: Seq<char>| self.violations.contains_key(n)
            && (#[trigger] self.violations[n]).touches(loc)
    }

    /// The rule set as one location sees it: its name, and the violations that
    /// touch the location, each reduced to the incidents there.
    pub open spec fn at(self, loc: Seq<char>) -> RulesetView {
        RulesetView::bare(self.name).with_violations(
            Map::new(
                |n: Seq<char>| self.violations.contains_key(n) && self.violations[n].touches(loc),
                |n: Seq<char>| self.violations[n].at(loc),
            ),
        )
    }
}

/// An impact index as a mathematical value: location, then rule set name.
pub type IndexView = Map<Seq<char>, Map<Seq<char>, RulesetView>>;

/// What the index holds for a location: nothing where the location is no key.
pub open spec fn held_at(index: IndexView, loc: Seq<char>) -> Map<Seq<char>, RulesetView> {
    if index.contains_key(loc) {
        index[loc]
    } else {
        Map::empty()
    }
}

/// The index after one more rule set: at every location that the rule set
/// touches, its reduced form takes the slot of its name, whatever was there.
pub open spec fn absorb(index: IndexView, ruleset: RulesetView) -> IndexView {
    Map::new(
        |loc: Seq<char>| index.contains_key(loc) || ruleset.touches(loc),
        |loc: Seq<char>|
            if ruleset.touches(loc) {
                held_at(index, loc).insert(ruleset.name, ruleset.at(loc))
            } else {
                index[loc]
            },
    )
}

/// The impact index of a report: its rule sets absorbed in source order.
pub open spec fn impact_index(report: Seq<RulesetView>) -> IndexView
    decreases report.len(),
{
    if report.len() == 0 {
        Map::empty()
    } else {
        absorb(impact_index(report.drop_last()), report.last())
    }
}

/// The locations of a report: those that some rule set touches.
pub open spec fn locations(report: Seq<RulesetView>) -> Set<Seq<char>> {
    Set::new(|loc: Seq<char>| exists|k: int| 0 <= k < report.len()
        && (#[trigger] report[k]).touches(loc))
}

/// The rule sets held for one location, each as a mathematical value.
pub open spec fn slices_of(m: Map<Seq<char>, Ruleset>) -> Map<Seq<char>, RulesetView> {
    Map::new(|n: Seq<char>| m.contains_key(n), |n: Seq<char>| m[n]@)
}

/// An index as a mathematical value.
pub open spec fn index_of(m: Map<Seq<char>, NameMap<Ruleset>>) -> IndexView {
    Map::new(|loc: Seq<char>| m.contains_key(loc), |loc: Seq<char>| slices_of(m[loc]@))
}

/// The map of one location and the rule sets in it are well formed.
pub open spec fn slices_wf(slices: NameMap<Ruleset>) -> bool {
    &&& slices.wf()
    &&& forall|n: Seq<char>| slices@.contains_key(n) ==> (#[trigger] slices@[n]).wf()
}

/// The index is well formed at each of its three levels.
pub open spec fn index_wf(index: NameMap<NameMap<Ruleset>>) -> bool {
    &&& index.wf()
    &&& forall|loc: Seq<char>| index@.contains_key(loc) ==> slices_wf(#[trigger] index@[loc])
}

} // verus!
