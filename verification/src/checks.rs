//! What a caller may ask of a report before or while indexing it: a ceiling
//! on its size, the incidents that it cannot place, and rule sets that would
//! displace one another.

use crate::builder::absorb_ruleset;
use crate::counts::report_total;
use crate::counts::ruleset_total;
use crate::counts::undisplaced;
use crate::impact::IndexView;
use crate::impact::held_at;
use crate::impact::impact_index;
use crate::impact::index_of;
use crate::impact::index_wf;
use crate::laws::latest;
use crate::laws::law_latest;
use crate::laws::law_lookup;
use crate::name_map::NameMap;
use crate::report::AnalysisReport;
use crate::report::IncidentView;
use crate::report::Ruleset;
use crate::report::RulesetView;
use crate::report::Violation;
use crate::report::ViolationView;
use crate::steps::lemma_absorb_opening;
use crate::steps::lemma_noting;
use crate::steps::portion;
use crate::steps::portion_and;
use crate::sums::lemma_sum_insert;
use crate::sums::lemma_sum_part;
use crate::sums::sum_over;
use vstd::prelude::*;

verus! {

/// Why no index was built.
#[derive(Debug, PartialEq, Eq)]
pub enum IndexError {
    /// The report holds more incidents than the caller allows.
    OversizedInput { ceiling: usize },
    /// Two rule sets of one name have incidents at one location.
    AmbiguousRuleSetName { name: String, location: String },
}

/// Two rule sets of the report have the given name and both touch the location.
pub open spec fn clashes(report: Seq<RulesetView>, name: Seq<char>, loc: Seq<char>) -> bool {
    exists|a: int, b: int|
        0 <= a < b < report.len() && (#[trigger] report[a].touches(loc)) && (
        #[trigger] report[b].touches(loc)) && report[a].name == name && report[b].name == name
}

/// No location that the part of the rule set touches has the name in the index.
pub open spec fn clear_of(index: IndexView, name: Seq<char>, part: RulesetView) -> bool {
    forall|loc: Seq<char>| #[trigger] part.touches(loc) ==> !held_at(index, loc).contains_key(name)
}

/// Looks among the incidents of one violation for a location where the index
/// already has the rule set's name.
fn clash_in_violation(
    index: &NameMap<NameMap<Ruleset>>,
    name: &str,
    n: &str,
    v: &Violation,
    Ghost(rs): Ghost<RulesetView>,
    Ghost(done): Ghost<Set<Seq<char>>>,
) -> (found: Option<String>)
    requires
        index_wf(*index),
        rs.violations.contains_key(n@),
        rs.violations[n@] == v@,
        !done.contains(n@),
        clear_of(index_of(index@), name@, portion(rs, done)),
    ensures
        match found {
            Some(loc) => rs.touches(loc@) && held_at(index_of(index@), loc@).contains_key(name@),
            None => clear_of(index_of(index@), name@, portion(rs, done.insert(n@))),
        },
{
    let ghost held = index_of(index@);
    proof {
        let before = portion(rs, done);
        let opened = v@.with_incidents(Seq::empty());
        lemma_absorb_opening(IndexView::empty(), before, n@, opened);
        assert(v@.incidents.take(0) =~= Seq::<IncidentView>::empty());
        let start = before.with_violations(before.violations.insert(n@, opened));
        assert(portion_and(rs, done, n@, 0) == start);
        assert forall|loc: Seq<char>| #[trigger] start.touches(loc) implies !held_at(
            held,
            loc,
        ).contains_key(name@) by {
            assert(start.touches(loc) == before.touches(loc));
        }
    }
    let mut j: usize = 0;
    while j < v.incidents.len()
        invariant
            j <= v.incidents.len(),
            index_wf(*index),
            held == index_of(index@),
            rs.violations.contains_key(n@),
            rs.violations[n@] == v@,
            clear_of(held, name@, portion_and(rs, done, n@, j as int)),
        decreases v.incidents.len() - j,
    {
        let incident = &v.incidents[j];
        let ghost part = portion_and(rs, done, n@, j as int);
        let ghost next = portion_and(rs, done, n@, j + 1);
        proof {
            assert(v@.incidents.take(j + 1) =~= v@.incidents.take(j as int).push(incident@));
            assert(next.violations =~= part.noting(n@, incident@).violations);
            assert(next == part.noting(n@, incident@));
            assert forall|loc: Seq<char>| next.touches(loc) <==> part.touches(loc) || (loc
                == incident@.uri && loc.len() > 0) by {
                lemma_noting(part, n@, incident@, loc);
            }
        }
        let loc = incident.uri.as_str();
        if !loc.is_empty() {
            let taken = match index.get(loc) {
                Some(slices) => slices.contains_key(name),
                None => false,
            };
            if taken {
                proof {
                    assert(v@.incidents[j as int].uri == loc@);
                    assert(v@.touches(loc@));
                    assert(rs.violations.contains_key(n@) && rs.violations[n@].touches(loc@));
                }
                return Some(incident.uri.clone());
            }
        }
        proof {
            assert forall|at: Seq<char>| #[trigger] next.touches(at) implies !held_at(
                held,
                at,
            ).contains_key(name@) by {
                if at != incident@.uri {
                    assert(part.touches(at));
                }
            }
        }
        j += 1;
    }
    proof {
        assert(v@.incidents.take(v@.incidents.len() as int) =~= v@.incidents);
        assert(portion_and(rs, done, n@, j as int).violations =~= portion(
            rs,
            done.insert(n@),
        ).violations);
    }
    None
}

/// A location that the rule set touches and where the index already has its
/// name, if there is one.
pub fn first_clash(index: &NameMap<NameMap<Ruleset>>, ruleset: &Ruleset) -> (found: Option<String>)
    requires
        index_wf(*index),
        ruleset.wf(),
    ensures
        match found {
            Some(loc) => ruleset@.touches(loc@) && held_at(index_of(index@), loc@).contains_key(
                ruleset@.name,
            ),
            None => clear_of(index_of(index@), ruleset@.name, ruleset@),
        },
{
    let ghost rs = ruleset@;
    let ghost names = ruleset.violations.names();
    proof {
        ruleset.violations.lemma_names();
        let nothing = portion(rs, names.take(0).to_set());
        assert(nothing.violations =~= Map::<Seq<char>, ViolationView>::empty());
        assert(forall|loc: Seq<char>| !nothing.touches(loc));
    }
    let count: usize = ruleset.violations.len();
    let mut i: usize = 0;
    while i < count
        invariant
            i <= count,
            count == names.len(),
            names == ruleset.violations.names(),
            names.no_duplicates(),
            rs == ruleset@,
            ruleset.wf(),
            index_wf(*index),
            clear_of(index_of(index@), rs.name, portion(rs, names.take(i as int).to_set())),
        decreases count - i,
    {
        let n = ruleset.violations.name_at(i);
        let v = ruleset.violations.value_at(i);
        let ghost done = names.take(i as int).to_set();
        proof {
            if done.contains(n@) {
                let j = choose|j: int| 0 <= j < i && names.take(i as int)[j] == n@;
                assert(names[j] == names[i as int]);
            }
            assert(names.take(i + 1) =~= names.take(i as int).push(n@));
            names.take(i as int).lemma_push_to_set_commute(n@);
            assert(names.take(i + 1).to_set() == done.insert(n@));
        }
        let found = clash_in_violation(
            index,
            ruleset.name.as_str(),
            n.as_str(),
            v,
            Ghost(rs),
            Ghost(done),
        );
        if found.is_some() {
            return found;
        }
        i += 1;
    }
    proof {
        ruleset.violations.lemma_names();
        assert(names.take(count as int) =~= names);
        assert(portion(rs, names.to_set()).violations =~= rs.violations);
    }
    None
}

/// A report holds at least as many incidents as any of its prefixes.
pub proof fn lemma_prefix_total(report: Seq<RulesetView>, k: int)
    requires
        0 <= k <= report.len(),
    ensures
        report_total(report.take(k)) <= report_total(report),
    decreases report.len(),
{
    if k == report.len() {
        assert(report.take(k) =~= report);
    } else {
        lemma_prefix_total(report.drop_last(), k);
        assert(report.drop_last().take(k) =~= report.take(k));
    }
}

impl AnalysisReport {
    /// Whether the report holds more incidents than the ceiling allows.
    pub fn exceeds(&self, ceiling: usize) -> (over: bool)
        requires
            self.wf(),
        ensures
            over == (report_total(self@) > ceiling),
    {
        let mut seen: usize = 0;
        let mut k: usize = 0;
        while k < self.rulesets.len()
            invariant
                k <= self.rulesets.len(),
                self.wf(),
                seen == report_total(self@.take(k as int)),
                seen <= ceiling,
            decreases self.rulesets.len() - k,
        {
            let ruleset = &self.rulesets[k];
            let ghost rs = ruleset@;
            let ghost names = ruleset.violations.names();
            let ghost each = |n: Seq<char>| rs.violations[n].incidents.len();
            let ghost base = seen;
            proof {
                ruleset.violations.lemma_names();
                assert(names.take(0).to_set() =~= Set::<Seq<char>>::empty());
                assert(names.to_set() =~= rs.violations.dom());
                assert(self@.take(k + 1).drop_last() =~= self@.take(k as int));
                assert(self@.take(k + 1).last() == rs);
                lemma_prefix_total(self@, k + 1);
            }
            let count: usize = ruleset.violations.len();
            let mut i: usize = 0;
            while i < count
                invariant
                    i <= count,
                    count == names.len(),
                    names == ruleset.violations.names(),
                    names.no_duplicates(),
                    names.to_set() == rs.violations.dom(),
                    rs.violations.dom().finite(),
                    rs == ruleset@,
                    ruleset.wf(),
                    each == |n: Seq<char>| rs.violations[n].incidents.len(),
                    base == report_total(self@.take(k as int)),
                    report_total(self@.take(k + 1)) == base + ruleset_total(rs),
                    report_total(self@.take(k + 1)) <= report_total(self@),
                    seen == base + sum_over(names.take(i as int).to_set(), each),
                    seen <= ceiling,
                decreases count - i,
            {
                let v = ruleset.violations.value_at(i);
                let more: usize = v.incidents.len();
                proof {
                    let n = names[i as int];
                    let done = names.take(i as int).to_set();
                    if done.contains(n) {
                        let j = choose|j: int| 0 <= j < i && names.take(i as int)[j] == n;
                        assert(names[j] == names[i as int]);
                    }
                    assert(names.take(i + 1) =~= names.take(i as int).push(n));
                    names.take(i as int).lemma_push_to_set_commute(n);
                    vstd::seq_lib::seq_to_set_is_finite(names.take(i as int));
                    lemma_sum_insert(done, each, n);
                    assert(each(n) == more);
                    let upto = names.take(i + 1);
                    assert(upto.to_set().subset_of(names.to_set())) by {
                        assert forall|m: Seq<char>| upto.to_set().contains(m)
                            implies names.to_set().contains(
                            m,
                        ) by {
                            let j = choose|j: int| 0 <= j < upto.len() && upto[j] == m;
                            assert(names[j] == m);
                        }
                    }
                    lemma_sum_part(rs.violations.dom(), upto.to_set(), each);
                }
                if more > ceiling - seen {
                    return true;
                }
                seen += more;
                i += 1;
            }
            proof {
                assert(names.take(count as int) =~= names);
            }
            k += 1;
        }
        proof {
            assert(self@.take(self.rulesets.len() as int) =~= self@);
        }
        false
    }

    /// The impact index of a report that holds no more incidents than the
    /// ceiling allows; no index at all of one that holds more.
    pub fn impacted_files_within(&self, ceiling: usize) -> (r: Result<
        NameMap<NameMap<Ruleset>>,
        IndexError,
    >)
        requires
            self.wf(),
        ensures
            match r {
                Ok(index) => report_total(self@) <= ceiling && index_wf(index) && index_of(index@)
                    == impact_index(self@),
                Err(refusal) => report_total(self@) > ceiling && refusal
                    == (IndexError::OversizedInput {
                    ceiling,
                }),
            },
    {
        if self.exceeds(ceiling) {
            Err(IndexError::OversizedInput { ceiling })
        } else {
            Ok(self.impacted_files())
        }
    }
}

/// Where an incident stands in a report: the position of its rule set, the
/// name of its violation, and its position in the violation's list.
#[derive(Debug)]
pub struct IncidentPosition {
    pub ruleset: usize,
    pub violation: String,
    pub incident: usize,
}

/// A position as a mathematical value.
pub struct PositionView {
    pub ruleset: int,
    pub violation: Seq<char>,
    pub incident: int,
}

impl View for IncidentPosition {
    type V = PositionView;

    open spec fn view(&self) -> PositionView {
        PositionView {
            ruleset: self.ruleset as int,
            violation: self.violation@,
            incident: self.incident as int,
        }
    }
}

/// The positions of a list, each as a mathematical value.
pub open spec fn positions_of(found: Seq<IncidentPosition>) -> Seq<PositionView> {
    Seq::new(found.len(), |i: int| found[i]@)
}

/// The position is one of the report, and the incident there has no location.
pub open spec fn lacks_location(report: Seq<RulesetView>, at: PositionView) -> bool {
    &&& 0 <= at.ruleset < report.len()
    &&& report[at.ruleset].violations.contains_key(at.violation)
    &&& 0 <= at.incident < report[at.ruleset].violations[at.violation].incidents.len()
    &&& report[at.ruleset].violations[at.violation].incidents[at.incident].uri.len() == 0
}

/// The position lies in what a walk through the report has passed when it
/// stands in rule set `k`, is done with the violations in `done`, and stands
/// before incident `j` of the violation `current`.
pub open spec fn passed(at: PositionView, k: int, done: Set<Seq<char>>, current: Seq<char>, j: int) -> bool {
    at.ruleset < k || (at.ruleset == k && (done.contains(at.violation) || (at.violation == current
        && at.incident < j)))
}

/// The list names, each once, the incidents without location that the walk
/// has passed.
pub open spec fn lists_passed(
    found: Seq<PositionView>,
    report: Seq<RulesetView>,
    k: int,
    done: Set<Seq<char>>,
    current: Seq<char>,
    j: int,
) -> bool {
    &&& found.no_duplicates()
    &&& forall|at: PositionView| #[trigger]
        found.contains(at) <==> lacks_location(report, at) && passed(at, k, done, current, j)
}

impl AnalysisReport {
    /// The incidents without a location, which no index holds: each once, by
    /// its position in the report.
    pub fn malformed_incidents(&self) -> (found: Vec<IncidentPosition>)
        requires
            self.wf(),
        ensures
            positions_of(found@).no_duplicates(),
            forall|at: PositionView| #[trigger]
                positions_of(found@).contains(at) <==> lacks_location(self@, at),
    {
        let mut found: Vec<IncidentPosition> = Vec::new();
        let ghost nothing = Set::<Seq<char>>::empty();
        let mut k: usize = 0;
        while k < self.rulesets.len()
            invariant
                k <= self.rulesets.len(),
                self.wf(),
                nothing == Set::<Seq<char>>::empty(),
                lists_passed(positions_of(found@), self@, k as int, nothing, Seq::empty(), 0),
            decreases self.rulesets.len() - k,
        {
            let ruleset = &self.rulesets[k];
            let ghost names = ruleset.violations.names();
            proof {
                ruleset.violations.lemma_names();
                assert(names.take(0).to_set() =~= nothing);
            }
            let count: usize = ruleset.violations.len();
            let mut i: usize = 0;
            while i < count
                invariant
                    i <= count,
                    k < self.rulesets.len(),
                    count == names.len(),
                    names == ruleset.violations.names(),
                    names.no_duplicates(),
                    ruleset == &self.rulesets[k as int],
                    self.wf(),
                    lists_passed(
                        positions_of(found@),
                        self@,
                        k as int,
                        names.take(i as int).to_set(),
                        Seq::empty(),
                        0,
                    ),
                decreases count - i,
            {
                let n = ruleset.violations.name_at(i);
                let v = ruleset.violations.value_at(i);
                let ghost done = names.take(i as int).to_set();
                proof {
                    if done.contains(n@) {
                        let at = choose|at: int| 0 <= at < i && names.take(i as int)[at] == n@;
                        assert(names[at] == names[i as int]);
                    }
                    let before = positions_of(found@);
                    assert forall|at: PositionView| #[trigger]
                        before.contains(at) <==> lacks_location(self@, at) && passed(
                            at,
                            k as int,
                            done,
                            n@,
                            0,
                        ) by {
                        assert(before.contains(at) <==> lacks_location(self@, at) && passed(
                            at,
                            k as int,
                            done,
                            Seq::empty(),
                            0,
                        ));
                    }
                }
                let mut j: usize = 0;
                while j < v.incidents.len()
                    invariant
                        j <= v.incidents.len(),
                        k < self.rulesets.len(),
                        self@[k as int].violations.contains_key(n@),
                        self@[k as int].violations[n@] == v@,
                        !done.contains(n@),
                        lists_passed(positions_of(found@), self@, k as int, done, n@, j as int),
                    decreases v.incidents.len() - j,
                {
                    let ghost before = positions_of(found@);
                    if v.incidents[j].uri.as_str().is_empty() {
                        let position = IncidentPosition { ruleset: k, violation: n.clone(), incident: j };
                        let ghost here = position@;
                        found.push(position);
                        proof {
                            assert(positions_of(found@) =~= before.push(here));
                            assert(!before.contains(here));
                            assert forall|at: PositionView| #[trigger]
                                positions_of(found@).contains(at) <==> lacks_location(self@, at)
                                    && passed(at, k as int, done, n@, j + 1) by {
                                assert(before.contains(at) <==> lacks_location(self@, at) && passed(
                                    at,
                                    k as int,
                                    done,
                                    n@,
                                    j as int,
                                ));
                                if before.contains(at) {
                                    let p = choose|p: int| 0 <= p < before.len() && before[p] == at;
                                    assert(before.push(here)[p] == at);
                                }
                                if at == here {
                                    assert(before.push(here)[before.len() as int] == at);
                                }
                            }
                        }
                    } else {
                        proof {
                            assert forall|at: PositionView| #[trigger]
                                before.contains(at) <==> lacks_location(self@, at) && passed(
                                    at,
                                    k as int,
                                    done,
                                    n@,
                                    j + 1,
                                ) by {
                                assert(before.contains(at) <==> lacks_location(self@, at) && passed(
                                    at,
                                    k as int,
                                    done,
                                    n@,
                                    j as int,
                                ));
                            }
                        }
                    }
                    j += 1;
                }
                proof {
                    assert(names.take(i + 1) =~= names.take(i as int).push(n@));
                    names.take(i as int).lemma_push_to_set_commute(n@);
                    let now = positions_of(found@);
                    assert forall|at: PositionView| #[trigger]
                        now.contains(at) <==> lacks_location(self@, at) && passed(
                            at,
                            k as int,
                            done.insert(n@),
                            Seq::empty(),
                            0,
                        ) by {
                        assert(now.contains(at) <==> lacks_location(self@, at) && passed(
                            at,
                            k as int,
                            done,
                            n@,
                            j as int,
                        ));
                    }
                }
                i += 1;
            }
            proof {
                assert(names.take(count as int) =~= names);
                let now = positions_of(found@);
                assert forall|at: PositionView| #[trigger]
                    now.contains(at) <==> lacks_location(self@, at) && passed(
                        at,
                        k + 1,
                        nothing,
                        Seq::empty(),
                        0,
                    ) by {
                    assert(now.contains(at) <==> lacks_location(self@, at) && passed(
                        at,
                        k as int,
                        names.to_set(),
                        Seq::empty(),
                        0,
                    ));
                    if lacks_location(self@, at) && at.ruleset == k {
                        assert(ruleset.violations@.contains_key(at.violation));
                        assert(names.contains(at.violation));
                    }
                }
            }
            k += 1;
        }
        proof {
            let now = positions_of(found@);
            assert forall|at: PositionView| #[trigger] now.contains(at)
                <==> lacks_location(self@, at) by {
                assert(now.contains(at) <==> lacks_location(self@, at) && passed(
                    at,
                    k as int,
                    nothing,
                    Seq::empty(),
                    0,
                ));
            }
        }
        found
    }
}

impl AnalysisReport {
    /// The impact index of a report in which no rule set displaces another;
    /// of a report in which one does, a refusal that names the rule sets and a
    /// location that two of them touch.
    pub fn impacted_files_strict(&self) -> (r: Result<NameMap<NameMap<Ruleset>>, IndexError>)
        requires
            self.wf(),
        ensures
            match r {
                Ok(index) => undisplaced(self@) && index_wf(index) && index_of(index@)
                    == impact_index(
                    self@,
                ),
                Err(refusal) => (refusal matches IndexError::AmbiguousRuleSetName { name, location }
                    && clashes(self@, name@, location@)),
            },
    {
        let mut index: NameMap<NameMap<Ruleset>> = NameMap::new();
        proof {
            assert(index_of(index@) =~= impact_index(self@.take(0)));
        }
        let mut k: usize = 0;
        while k < self.rulesets.len()
            invariant
                k <= self.rulesets.len(),
                self.wf(),
                index_wf(index),
                index_of(index@) == impact_index(self@.take(k as int)),
                undisplaced(self@.take(k as int)),
            decreases self.rulesets.len() - k,
        {
            let ruleset = &self.rulesets[k];
            let ghost shorter = self@.take(k as int);
            let ghost longer = self@.take(k + 1);
            let ghost name = ruleset@.name;
            match first_clash(&index, ruleset) {
                Some(location) => {
                    proof {
                        law_lookup(shorter, location@, name);
                        law_latest(shorter, name, location@);
                        let a = latest(shorter, name, location@).unwrap();
                        assert(self@[a] == shorter[a]);
                        assert(self@[a].touches(location@) && self@[k as int].touches(location@));
                    }
                    return Err(
                        IndexError::AmbiguousRuleSetName { name: ruleset.name.clone(), location },
                    );
                },
                None => {},
            }
            absorb_ruleset(&mut index, ruleset, false);
            proof {
                assert(longer.drop_last() =~= shorter);
                assert(longer.last() == ruleset@);
                assert forall|a: int, b: int, loc: Seq<char>|
                    0 <= a < b < longer.len() && (#[trigger] longer[a].touches(loc)) && (
                    #[trigger] longer[b].touches(loc)) implies longer[a].name != longer[b].name by {
                    if b < k {
                        assert(shorter[a].touches(loc) && shorter[b].touches(loc));
                    } else {
                        law_lookup(shorter, loc, name);
                        law_latest(shorter, name, loc);
                        assert(shorter[a] == longer[a]);
                    }
                }
            }
            k += 1;
        }
        proof {
            assert(self@.take(self.rulesets.len() as int) =~= self@);
        }
        Ok(index)
    }
}

} // verus!
