//! Building the impact index and the inventory of locations.

use crate::impact::absorb;
use crate::impact::held_at;
use crate::impact::impact_index;
use crate::impact::index_of;
use crate::impact::index_wf;
use crate::impact::locations;
use crate::impact::slices_of;
use crate::impact::IndexView;
use crate::laws::law_keys_are_locations;
use crate::name_map::NameMap;
use crate::report::incidents_of;
use crate::report::texts_of;
use crate::report::AnalysisReport;
use crate::report::Incident;
use crate::report::IncidentView;
use crate::report::Ruleset;
use crate::report::RulesetView;
use crate::report::Violation;
use crate::report::ViolationView;
use crate::steps::gathers;
use crate::steps::lemma_absorb_noting;
use crate::steps::lemma_absorb_nothing;
use crate::steps::lemma_absorb_opening;
use crate::steps::lemma_absorb_skip;
use crate::steps::lemma_noting;
use crate::steps::lemma_taking;
use crate::steps::marks;
use crate::steps::placed;
use crate::steps::portion;
use crate::steps::portion_and;
use vstd::hash_map::StringHashMap;
use vstd::prelude::*;

verus! {

/// Notes an incident in a reduced rule set, under the violation's name. The
/// first incident under a name brings the violation's other fields along.
pub fn note_incident(slice: &mut Ruleset, n: &str, v: &Violation, incident: &Incident)
    requires
        old(slice).wf(),
    ensures
        final(slice).wf(),
        final(slice)@ == old(slice)@.taking(n@, v@, incident@),
{
    if !slice.violations.contains_key(n) {
        slice.violations.insert(n.to_owned(), v.stripped());
    }
    let ghost before = slice.violations@[n@];
    let found = slice.violations.get_mut(n);
    let copy = incident.clone();
    let ghost copied = copy;
    found.incidents.push(copy);
    proof {
        assert(before@ == old(slice)@.noted_under(n@, v@));
        let after = slice.violations@[n@];
        assert(after.incidents@ == before.incidents@.push(copied));
        assert(incidents_of(after.incidents@) =~= incidents_of(before.incidents@).push(incident@));
        assert(slice@.violations =~= old(slice)@.violations.insert(
            n@,
            before@.with_incidents(before@.incidents.push(incident@)),
        ));
    }
}

/// Gives a rule set a fresh, empty slot at a location, in place of whatever
/// stood under its name there.
pub fn open_slot(index: &mut NameMap<NameMap<Ruleset>>, loc: &str, ruleset: &Ruleset)
    requires
        index_wf(*old(index)),
    ensures
        index_wf(*final(index)),
        index_of(final(index)@) == index_of(old(index)@).insert(
            loc@,
            held_at(index_of(old(index)@), loc@).insert(
                ruleset@.name,
                RulesetView::bare(ruleset@.name),
            ),
        ),
{
    if !index.contains_key(loc) {
        index.insert(loc.to_owned(), NameMap::new());
    }
    let ghost middle = *index;
    proof {
        assert(slices_of(middle@[loc@]@) =~= held_at(index_of(old(index)@), loc@));
    }
    let slices = index.get_mut(loc);
    slices.insert(ruleset.name.clone(), ruleset.stripped());
    proof {
        let after = index@[loc@];
        assert(slices_of(after@) =~= slices_of(middle@[loc@]@).insert(
            ruleset@.name,
            RulesetView::bare(ruleset@.name),
        ));
        assert(index_of(index@) =~= index_of(old(index)@).insert(loc@, slices_of(after@)));
    }
}

/// Notes an incident in the slot that a rule set has at a location.
pub fn note_at(
    index: &mut NameMap<NameMap<Ruleset>>,
    loc: &str,
    name: &str,
    n: &str,
    v: &Violation,
    incident: &Incident,
)
    requires
        index_wf(*old(index)),
        old(index)@.contains_key(loc@),
        old(index)@[loc@]@.contains_key(name@),
    ensures
        index_wf(*final(index)),
        index_of(final(index)@) == index_of(old(index)@).insert(
            loc@,
            index_of(old(index)@)[loc@].insert(
                name@,
                index_of(old(index)@)[loc@][name@].taking(n@, v@, incident@),
            ),
        ),
{
    let slices = index.get_mut(loc);
    let slice = slices.get_mut(name);
    note_incident(slice, n, v, incident);
    proof {
        let before = old(index)@[loc@];
        let after = index@[loc@];
        assert(slices_of(after@) =~= slices_of(before@).insert(
            name@,
            before@[name@]@.taking(n@, v@, incident@),
        ));
        assert(index_of(index@) =~= index_of(old(index)@).insert(loc@, slices_of(after@)));
    }
}

/// Takes an incident of a rule set into the index, getting or creating the
/// entry at each of the three levels in turn.
pub fn take_incident(
    index: &mut NameMap<NameMap<Ruleset>>,
    fresh: bool,
    ruleset: &Ruleset,
    n: &str,
    v: &Violation,
    incident: &Incident,
)
    requires
        index_wf(*old(index)),
        !fresh ==> old(index)@.contains_key(incident@.uri)
            && old(index)@[incident@.uri]@.contains_key(
            ruleset@.name,
        ),
    ensures
        index_wf(*final(index)),
        index_of(final(index)@) == placed(
            index_of(old(index)@),
            fresh,
            incident@.uri,
            ruleset@.name,
            n@,
            v@,
            incident@,
        ),
{
    let loc = incident.uri.as_str();
    if fresh {
        open_slot(index, loc, ruleset);
    }
    let ghost opened = index_of(index@);
    proof {
        assert(opened.contains_key(loc@));
        assert(opened[loc@].contains_key(ruleset@.name));
    }
    note_at(index, loc, ruleset.name.as_str(), n, v, incident);
    proof {
        let before = index_of(old(index)@);
        let slot = opened[loc@][ruleset@.name];
        assert(opened[loc@].insert(ruleset@.name, slot.taking(n@, v@, incident@)) =~= held_at(
            before,
            loc@,
        ).insert(ruleset@.name, slot.taking(n@, v@, incident@)));
        assert(index_of(index@) =~= placed(
            before,
            fresh,
            loc@,
            ruleset@.name,
            n@,
            v@,
            incident@,
        ));
    }
}

/// Takes an incident of a rule set into the index by looking each level up
/// and branching on what is there.
pub fn take_incident_nested(
    index: &mut NameMap<NameMap<Ruleset>>,
    fresh: bool,
    ruleset: &Ruleset,
    n: &str,
    v: &Violation,
    incident: &Incident,
)
    requires
        index_wf(*old(index)),
        !fresh ==> old(index)@.contains_key(incident@.uri)
            && old(index)@[incident@.uri]@.contains_key(
            ruleset@.name,
        ),
    ensures
        index_wf(*final(index)),
        index_of(final(index)@) == placed(
            index_of(old(index)@),
            fresh,
            incident@.uri,
            ruleset@.name,
            n@,
            v@,
            incident@,
        ),
{
    let loc = incident.uri.as_str();
    let ghost before = index_of(old(index)@);
    let ghost bare = RulesetView::bare(ruleset@.name);
    if index.contains_key(loc) {
        let impacted_rulesets = index.get_mut(loc);
        let ghost held = *impacted_rulesets;
        if !fresh {
            let impacted_ruleset = impacted_rulesets.get_mut(ruleset.name.as_str());
            let ghost slot = *impacted_ruleset;
            if impacted_ruleset.violations.contains_key(n) {
                let found = impacted_ruleset.violations.get_mut(n);
                let ghost was = *found;
                let copy = incident.clone();
                let ghost copied = copy;
                found.incidents.push(copy);
                proof {
                    let now = impacted_ruleset.violations@[n@];
                    assert(now.incidents@ == was.incidents@.push(copied));
                    assert(incidents_of(now.incidents@) =~= incidents_of(was.incidents@).push(
                        incident@,
                    ));
                    assert(impacted_ruleset@.violations =~= slot@.taking(
                        n@,
                        v@,
                        incident@,
                    ).violations);
                }
            } else {
                let mut stripped_violation = v.stripped();
                let copy = incident.clone();
                let ghost copied = copy;
                let ghost was = stripped_violation;
                stripped_violation.incidents.push(copy);
                proof {
                    assert(stripped_violation.incidents@ == was.incidents@.push(copied));
                    assert(incidents_of(stripped_violation.incidents@) =~= incidents_of(
                        was.incidents@,
                    ).push(incident@));
                }
                impacted_ruleset.violations.insert(n.to_owned(), stripped_violation);
                proof {
                    assert(impacted_ruleset@.violations =~= slot@.taking(
                        n@,
                        v@,
                        incident@,
                    ).violations);
                }
            }
            proof {
                assert(impacted_ruleset@ == slot@.taking(n@, v@, incident@));
            }
        } else {
            let mut stripped_violation = v.stripped();
            let copy = incident.clone();
            let ghost copied = copy;
            let ghost was = stripped_violation;
            stripped_violation.incidents.push(copy);
            proof {
                assert(stripped_violation.incidents@ == was.incidents@.push(copied));
                assert(incidents_of(stripped_violation.incidents@) =~= incidents_of(
                    was.incidents@,
                ).push(incident@));
            }
            let mut stripped_ruleset = ruleset.stripped();
            stripped_ruleset.violations.insert(n.to_owned(), stripped_violation);
            proof {
                assert(stripped_ruleset@.violations =~= bare.taking(n@, v@, incident@).violations);
                assert(stripped_ruleset@ == bare.taking(n@, v@, incident@));
            }
            impacted_rulesets.insert(ruleset.name.clone(), stripped_ruleset);
        }
        proof {
            let slot = if fresh {
                bare
            } else {
                before[loc@][ruleset@.name]
            };
            let after = index@[loc@];
            assert(slices_of(after@) =~= held_at(before, loc@).insert(
                ruleset@.name,
                slot.taking(n@, v@, incident@),
            ));
            assert(index_of(index@) =~= before.insert(loc@, slices_of(after@)));
        }
    } else {
        let mut stripped_violation = v.stripped();
        let copy = incident.clone();
        let ghost copied = copy;
        let ghost was = stripped_violation;
        stripped_violation.incidents.push(copy);
        proof {
            assert(stripped_violation.incidents@ == was.incidents@.push(copied));
            assert(incidents_of(stripped_violation.incidents@) =~= incidents_of(
                was.incidents@,
            ).push(incident@));
        }
        let mut stripped_ruleset = ruleset.stripped();
        stripped_ruleset.violations.insert(n.to_owned(), stripped_violation);
        proof {
            assert(stripped_ruleset@.violations =~= bare.taking(n@, v@, incident@).violations);
            assert(stripped_ruleset@ == bare.taking(n@, v@, incident@));
        }
        let mut uri_rulesets: NameMap<Ruleset> = NameMap::new();
        uri_rulesets.insert(ruleset.name.clone(), stripped_ruleset);
        proof {
            assert(slices_of(uri_rulesets@) =~= held_at(before, loc@).insert(
                ruleset@.name,
                bare.taking(n@, v@, incident@),
            ));
        }
        index.insert(loc.to_owned(), uri_rulesets);
        proof {
            assert(index_of(index@) =~= before.insert(loc@, slices_of(uri_rulesets@)));
        }
    }
}

/// Absorbs one violation of a rule set into an index that has absorbed some
/// of its other violations.
fn absorb_violation(
    index: &mut NameMap<NameMap<Ruleset>>,
    seen: &mut StringHashMap<bool>,
    ruleset: &Ruleset,
    n: &str,
    v: &Violation,
    nested: bool,
    Ghost(base): Ghost<IndexView>,
    Ghost(done): Ghost<Set<Seq<char>>>,
)
    requires
        index_wf(*old(index)),
        ruleset@.violations.contains_key(n@),
        ruleset@.violations[n@] == v@,
        !done.contains(n@),
        index_of(old(index)@) == absorb(base, portion(ruleset@, done)),
        marks(old(seen)@, portion(ruleset@, done)),
    ensures
        index_wf(*final(index)),
        index_of(final(index)@) == absorb(base, portion(ruleset@, done.insert(n@))),
        marks(final(seen)@, portion(ruleset@, done.insert(n@))),
{
    let ghost rs = ruleset@;
    proof {
        let before = portion(rs, done);
        let opened = v@.with_incidents(Seq::empty());
        lemma_absorb_opening(base, before, n@, opened);
        assert(v@.incidents.take(0) =~= Seq::<IncidentView>::empty());
        let start = before.with_violations(before.violations.insert(n@, opened));
        assert(portion_and(rs, done, n@, 0) == start);
        assert forall|loc: Seq<char>| old(seen)@.contains_key(loc) <==> start.touches(loc) by {
            assert(start.touches(loc) == before.touches(loc));
        }
    }
    let mut j: usize = 0;
    while j < v.incidents.len()
        invariant
            j <= v.incidents.len(),
            rs == ruleset@,
            rs.violations.contains_key(n@),
            rs.violations[n@] == v@,
            index_wf(*index),
            index_of(index@) == absorb(base, portion_and(rs, done, n@, j as int)),
            marks(seen@, portion_and(rs, done, n@, j as int)),
        decreases v.incidents.len() - j,
    {
        let incident = &v.incidents[j];
        let ghost part = portion_and(rs, done, n@, j as int);
        let ghost next = portion_and(rs, done, n@, j + 1);
        proof {
            assert(v@.incidents.take(j + 1) =~= v@.incidents.take(j as int).push(incident@));
            assert(next.violations =~= part.noting(n@, incident@).violations);
            assert(next == part.noting(n@, incident@));
            assert forall|loc: Seq<char>| next.touches(loc) <==> part.touches(loc) || (loc
                == incident@.uri && loc.len() > 0) by {
                lemma_noting(part, n@, incident@, loc);
            }
        }
        let loc = incident.uri.as_str();
        if loc.is_empty() {
            proof {
                lemma_absorb_skip(base, part, n@, incident@);
            }
        } else {
            let ghost current = index_of(index@);
            let fresh = !seen.contains_key(loc);
            proof {
                if fresh {
                    assert(held_at(current, loc@) == held_at(base, loc@));
                    assert(part.at(loc@).violations =~= Map::<Seq<char>, ViolationView>::empty());
                } else {
                    assert(current.contains_key(loc@));
                    assert(current[loc@].contains_key(rs.name));
                }
                let slot = if fresh {
                    RulesetView::bare(rs.name)
                } else {
                    current[loc@][rs.name]
                };
                assert(slot == RulesetView::bare(rs.name).with_violations(
                    part.at(loc@).violations,
                ));
                lemma_taking(part, slot, n@, v@, incident@);
                lemma_absorb_noting(base, part, n@, incident@);
                assert(held_at(current, loc@).insert(rs.name, next.at(loc@)) =~= held_at(
                    base,
                    loc@,
                ).insert(rs.name, next.at(loc@)));
            }
            if nested {
                take_incident_nested(index, fresh, ruleset, n, v, incident);
            } else {
                take_incident(index, fresh, ruleset, n, v, incident);
            }
            if fresh {
                seen.insert(loc.to_owned(), true);
            }
        }
        j += 1;
    }
    proof {
        assert(v@.incidents.take(v@.incidents.len() as int) =~= v@.incidents);
        assert(portion_and(rs, done, n@, j as int).violations =~= portion(
            rs,
            done.insert(n@),
        ).violations);
    }
}

/// Absorbs one rule set into the index: at each location that it touches, its
/// reduced form takes the slot of its name. With `nested` every incident is
/// placed by nested lookups, else by getting or creating each level's entry;
/// the index that results is the same.
pub fn absorb_ruleset(index: &mut NameMap<NameMap<Ruleset>>, ruleset: &Ruleset, nested: bool)
    requires
        index_wf(*old(index)),
        ruleset.wf(),
    ensures
        index_wf(*final(index)),
        index_of(final(index)@) == absorb(index_of(old(index)@), ruleset@),
{
    let ghost base = index_of(index@);
    let ghost rs = ruleset@;
    let ghost names = ruleset.violations.names();
    let mut seen: StringHashMap<bool> = StringHashMap::new();
    proof {
        ruleset.violations.lemma_names();
        let nothing = portion(rs, names.take(0).to_set());
        assert(nothing.violations =~= Map::<Seq<char>, ViolationView>::empty());
        lemma_absorb_nothing(base, nothing);
        assert(forall|loc: Seq<char>| !nothing.touches(loc));
    }
    let count: usize = ruleset.violations.len();
    let mut i: usize = 0;
    while i < count
        invariant
            i <= count,
            count == names.len(),
            names == ruleset.violations.names(),
            names.no_duplicates(),
            rs == ruleset@,
            ruleset.wf(),
            index_wf(*index),
            index_of(index@) == absorb(base, portion(rs, names.take(i as int).to_set())),
            marks(seen@, portion(rs, names.take(i as int).to_set())),
        decreases count - i,
    {
        let n = ruleset.violations.name_at(i);
        let v = ruleset.violations.value_at(i);
        let ghost done = names.take(i as int).to_set();
        proof {
            if done.contains(n@) {
                let j = choose|j: int| 0 <= j < i && names.take(i as int)[j] == n@;
                assert(names[j] == names[i as int]);
            }
            assert(names.take(i + 1) =~= names.take(i as int).push(n@));
            names.take(i as int).lemma_push_to_set_commute(n@);
            assert(names.take(i + 1).to_set() == done.insert(n@));
        }
        absorb_violation(
            index,
            &mut seen,
            ruleset,
            n.as_str(),
            v,
            nested,
            Ghost(base),
            Ghost(done),
        );
        i += 1;
    }
    proof {
        ruleset.violations.lemma_names();
        assert(names.take(count as int) =~= names);
        assert(portion(rs, names.to_set()).violations =~= rs.violations);
    }
}

impl AnalysisReport {
    /// The impact index of the report: for each location, under the name of
    /// each rule set that has incidents there, that rule set reduced to the
    /// violations and incidents of the location. Rule sets are taken in source
    /// order, and a later one replaces an earlier one of the same name at the
    /// locations that both touch. Incidents without a location are left out.
    pub fn impacted_files(&self) -> (index: NameMap<NameMap<Ruleset>>)
        requires
            self.wf(),
        ensures
            index_wf(index),
            index_of(index@) == impact_index(self@),
    {
        let mut index: NameMap<NameMap<Ruleset>> = NameMap::new();
        proof {
            assert(index_of(index@) =~= impact_index(self@.take(0)));
        }
        let mut k: usize = 0;
        while k < self.rulesets.len()
            invariant
                k <= self.rulesets.len(),
                self.wf(),
                index_wf(index),
                index_of(index@) == impact_index(self@.take(k as int)),
            decreases self.rulesets.len() - k,
        {
            absorb_ruleset(&mut index, &self.rulesets[k], false);
            proof {
                assert(self@.take(k + 1).drop_last() =~= self@.take(k as int));
                assert(self@.take(k + 1).last() == self.rulesets[k as int]@);
            }
            k += 1;
        }
        proof {
            assert(self@.take(self.rulesets.len() as int) =~= self@);
        }
        index
    }

    /// The same index as [`AnalysisReport::impacted_files`], built with nested
    /// lookups in place of get-or-create entries.
    pub fn impacted_files_ugly(&self) -> (index: NameMap<NameMap<Ruleset>>)
        requires
            self.wf(),
        ensures
            index_wf(index),
            index_of(index@) == impact_index(self@),
    {
        let mut impacted_files: NameMap<NameMap<Ruleset>> = NameMap::new();
        proof {
            assert(index_of(impacted_files@) =~= impact_index(self@.take(0)));
        }
        let mut k: usize = 0;
        while k < self.rulesets.len()
            invariant
                k <= self.rulesets.len(),
                self.wf(),
                index_wf(impacted_files),
                index_of(impacted_files@) == impact_index(self@.take(k as int)),
            decreases self.rulesets.len() - k,
        {
            absorb_ruleset(&mut impacted_files, &self.rulesets[k], true);
            proof {
                assert(self@.take(k + 1).drop_last() =~= self@.take(k as int));
                assert(self@.take(k + 1).last() == self.rulesets[k as int]@);
            }
            k += 1;
        }
        proof {
            assert(self@.take(self.rulesets.len() as int) =~= self@);
        }
        impacted_files
    }
}

/// Adds to a set of locations those of one violation of a rule set.
fn collect_violation(
    uris: &mut NameMap<bool>,
    n: &str,
    v: &Violation,
    Ghost(rs): Ghost<RulesetView>,
    Ghost(done): Ghost<Set<Seq<char>>>,
    Ghost(earlier): Ghost<Set<Seq<char>>>,
)
    requires
        old(uris).wf(),
        rs.violations.contains_key(n@),
        rs.violations[n@] == v@,
        !done.contains(n@),
        gathers(old(uris)@, earlier, portion(rs, done)),
    ensures
        final(uris).wf(),
        gathers(final(uris)@, earlier, portion(rs, done.insert(n@))),
{
    proof {
        let before = portion(rs, done);
        let opened = v@.with_incidents(Seq::empty());
        lemma_absorb_opening(IndexView::empty(), before, n@, opened);
        assert(v@.incidents.take(0) =~= Seq::<IncidentView>::empty());
        let start = before.with_violations(before.violations.insert(n@, opened));
        assert(portion_and(rs, done, n@, 0) == start);
        assert forall|loc: Seq<char>|
            old(uris)@.contains_key(loc) <==> earlier.contains(loc) || start.touches(loc) by {
            assert(start.touches(loc) == before.touches(loc));
            assert(old(uris)@.contains_key(loc) <==> earlier.contains(loc) || before.touches(loc));
        }
    }
    let mut j: usize = 0;
    while j < v.incidents.len()
        invariant
            j <= v.incidents.len(),
            rs.violations.contains_key(n@),
            rs.violations[n@] == v@,
            uris.wf(),
            gathers(uris@, earlier, portion_and(rs, done, n@, j as int)),
        decreases v.incidents.len() - j,
    {
        let incident = &v.incidents[j];
        let ghost part = portion_and(rs, done, n@, j as int);
        let ghost next = portion_and(rs, done, n@, j + 1);
        proof {
            assert(v@.incidents.take(j + 1) =~= v@.incidents.take(j as int).push(incident@));
            assert(next.violations =~= part.noting(n@, incident@).violations);
            assert(next == part.noting(n@, incident@));
            assert forall|loc: Seq<char>| next.touches(loc) <==> part.touches(loc) || (loc
                == incident@.uri && loc.len() > 0) by {
                lemma_noting(part, n@, incident@, loc);
            }
        }
        let loc = incident.uri.as_str();
        let ghost before = uris@;
        if !loc.is_empty() && !uris.contains_key(loc) {
            uris.insert(loc.to_owned(), true);
        }
        proof {
            assert forall|at: Seq<char>|
                uris@.contains_key(at) <==> earlier.contains(at) || next.touches(at) by {
                assert(before.contains_key(at) <==> earlier.contains(at) || part.touches(at));
            }
        }
        j += 1;
    }
    proof {
        assert(v@.incidents.take(v@.incidents.len() as int) =~= v@.incidents);
        assert(portion_and(rs, done, n@, j as int).violations =~= portion(
            rs,
            done.insert(n@),
        ).violations);
    }
}

/// Adds to a set of locations those that a rule set touches.
pub fn collect_locations(uris: &mut NameMap<bool>, ruleset: &Ruleset)
    requires
        old(uris).wf(),
        ruleset.wf(),
    ensures
        final(uris).wf(),
        gathers(final(uris)@, old(uris)@.dom(), ruleset@),
{
    let ghost earlier = old(uris)@.dom();
    let ghost rs = ruleset@;
    let ghost names = ruleset.violations.names();
    proof {
        ruleset.violations.lemma_names();
        let nothing = portion(rs, names.take(0).to_set());
        assert(nothing.violations =~= Map::<Seq<char>, ViolationView>::empty());
        assert(forall|loc: Seq<char>| !nothing.touches(loc));
    }
    let count: usize = ruleset.violations.len();
    let mut i: usize = 0;
    while i < count
        invariant
            i <= count,
            count == names.len(),
            names == ruleset.violations.names(),
            names.no_duplicates(),
            rs == ruleset@,
            ruleset.wf(),
            uris.wf(),
            gathers(uris@, earlier, portion(rs, names.take(i as int).to_set())),
        decreases count - i,
    {
        let n = ruleset.violations.name_at(i);
        let v = ruleset.violations.value_at(i);
        let ghost done = names.take(i as int).to_set();
        proof {
            if done.contains(n@) {
                let j = choose|j: int| 0 <= j < i && names.take(i as int)[j] == n@;
                assert(names[j] == names[i as int]);
            }
            assert(names.take(i + 1) =~= names.take(i as int).push(n@));
            names.take(i as int).lemma_push_to_set_commute(n@);
            assert(names.take(i + 1).to_set() == done.insert(n@));
        }
        collect_violation(uris, n.as_str(), v, Ghost(rs), Ghost(done), Ghost(earlier));
        i += 1;
    }
    proof {
        ruleset.violations.lemma_names();
        assert(names.take(count as int) =~= names);
        assert(portion(rs, names.to_set()).violations =~= rs.violations);
    }
}

impl AnalysisReport {
    /// The locations of the report, each once: those of the incidents of its
    /// violations, but for the empty one. They are the keys of the impact index.
    pub fn impacted_file_names(&self) -> (names: Vec<String>)
        requires
            self.wf(),
        ensures
            texts_of(names@).no_duplicates(),
            texts_of(names@).to_set() == locations(self@),
            texts_of(names@).to_set() == impact_index(self@).dom(),
    {
        let mut uris: NameMap<bool> = NameMap::new();
        let mut k: usize = 0;
        while k < self.rulesets.len()
            invariant
                k <= self.rulesets.len(),
                self.wf(),
                uris.wf(),
                forall|loc: Seq<char>|
                    uris@.contains_key(loc) <==> locations(self@.take(k as int)).contains(loc),
            decreases self.rulesets.len() - k,
        {
            let ghost before = uris@;
            collect_locations(&mut uris, &self.rulesets[k]);
            proof {
                let shorter = self@.take(k as int);
                let longer = self@.take(k + 1);
                assert forall|loc: Seq<char>| uris@.contains_key(loc) <==> locations(
                    longer,
                ).contains(loc) by {
                    assert(uris@.contains_key(loc) <==> before.contains_key(loc)
                        || self.rulesets[k as int]@.touches(loc));
                    assert(before.contains_key(loc) <==> locations(shorter).contains(loc));
                    if locations(longer).contains(loc) {
                        let at = choose|at: int| 0 <= at < longer.len()
                            && (#[trigger] longer[at]).touches(loc);
                        if at < k {
                            assert(shorter[at].touches(loc));
                        }
                    }
                    if before.contains_key(loc) {
                        let at = choose|at: int| 0 <= at < shorter.len()
                            && (#[trigger] shorter[at]).touches(loc);
                        assert(longer[at].touches(loc));
                    }
                    if self.rulesets[k as int]@.touches(loc) {
                        assert(longer[k as int].touches(loc));
                    }
                }
            }
            k += 1;
        }
        let names = uris.keys();
        proof {
            assert(self@.take(self.rulesets.len() as int) =~= self@);
            uris.lemma_names();
            assert(texts_of(names@) =~= uris.names());
            assert(texts_of(names@).to_set() =~= locations(self@));
            law_keys_are_locations(self@);
        }
        names
    }
}

} // verus!
