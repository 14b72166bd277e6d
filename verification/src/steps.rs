//! How the index changes as one incident after another is taken in.

use crate::impact::absorb;
use crate::impact::held_at;
use crate::impact::occurs_at;
use crate::impact::IndexView;
use crate::report::IncidentView;
use crate::report::RulesetView;
use crate::report::ViolationView;
use vstd::prelude::*;

verus! {

impl RulesetView {
    /// The rule set after one more incident was noted under a violation that it has.
    pub open spec fn noting(self, n: Seq<char>, incident: IncidentView) -> RulesetView {
        self.with_violations(
            self.violations.insert(
                n,
                self.violations[n].with_incidents(self.violations[n].incidents.push(incident)),
            ),
        )
    }

    /// The violation to which a reduced rule set adds an incident noted under
    /// a name: the one it holds under that name, or else the given one without
    /// incidents.
    pub open spec fn noted_under(self, n: Seq<char>, v: ViolationView) -> ViolationView {
        if self.violations.contains_key(n) {
            self.violations[n]
        } else {
            v.with_incidents(Seq::empty())
        }
    }

    /// The reduced rule set after it took one more incident under a name.
    pub open spec fn taking(self, n: Seq<char>, v: ViolationView, incident: IncidentView)
        -> RulesetView {
        self.with_violations(
            self.violations.insert(
                n,
                self.noted_under(n, v).with_incidents(self.noted_under(n, v).incidents.push(incident)),
            ),
        )
    }
}

/// The index after a rule set of the given name took an incident at a
/// location: into a fresh slot where this is its first there, else into the
/// slot that it has.
pub open spec fn placed(
    index: IndexView,
    fresh: bool,
    loc: Seq<char>,
    name: Seq<char>,
    n: Seq<char>,
    v: ViolationView,
    incident: IncidentView,
) -> IndexView {
    let slot = if fresh {
        RulesetView::bare(name)
    } else {
        index[loc][name]
    };
    index.insert(loc, held_at(index, loc).insert(name, slot.taking(n, v, incident)))
}

/// The part of a rule set made of the violations under the given names.
pub open spec fn portion(rs: RulesetView, done: Set<Seq<char>>) -> RulesetView {
    rs.with_violations(rs.violations.restrict(done))
}

/// The part of a rule set made of the violations under the given names and of
/// the first `j` incidents of one more violation.
pub open spec fn portion_and(rs: RulesetView, done: Set<Seq<char>>, n: Seq<char>, j: int)
    -> RulesetView {
    rs.with_violations(
        rs.violations.restrict(done).insert(
            n,
            rs.violations[n].with_incidents(rs.violations[n].incidents.take(j)),
        ),
    )
}

/// The locations marked as seen are those that the part of the rule set touches.
pub open spec fn marks(seen: Map<Seq<char>, bool>, part: RulesetView) -> bool {
    forall|loc: Seq<char>| seen.contains_key(loc) <==> part.touches(loc)
}

/// The set holds the earlier locations and those that the part of the rule
/// set touches.
pub open spec fn gathers(uris: Map<Seq<char>, bool>, earlier: Set<Seq<char>>, part: RulesetView)
    -> bool {
    forall|loc: Seq<char>|
        #![trigger uris.contains_key(loc)]
        #![trigger earlier.contains(loc)]
        #![trigger part.touches(loc)]
        uris.contains_key(loc) <==> earlier.contains(loc) || part.touches(loc)
}

/// A list has incidents at a location exactly when its filter is not empty.
pub proof fn lemma_filter_empty(s: Seq<IncidentView>, loc: Seq<char>)
    ensures
        s.filter(occurs_at(loc)).len() == 0 <==> forall|j: int| 0 <= j < s.len()
            ==> (#[trigger] s[j]).uri != loc,
    decreases s.len(),
{
    reveal(Seq::filter);
    if s.len() > 0 {
        lemma_filter_empty(s.drop_last(), loc);
        if s.filter(occurs_at(loc)).len() == 0 {
            assert forall|j: int| 0 <= j < s.len() implies (#[trigger] s[j]).uri != loc by {
                if j < s.len() - 1 {
                    assert(s.drop_last()[j] == s[j]);
                }
            }
        } else {
            if s.last().uri != loc {
                let j = choose|j: int| 0 <= j < s.drop_last().len()
                    && (#[trigger] s.drop_last()[j]).uri == loc;
                assert(s[j].uri == loc);
            }
        }
    }
}

/// What noting an incident does to a violation's reach and to its reduced forms.
pub proof fn lemma_violation_noting(v: ViolationView, incident: IncidentView, loc: Seq<char>)
    ensures
        v.with_incidents(v.incidents.push(incident)).touches(loc) <==> v.touches(loc) || (loc
            == incident.uri && loc.len() > 0),
        loc != incident.uri ==> v.with_incidents(v.incidents.push(incident)).at(loc) == v.at(loc),
        loc == incident.uri ==> v.with_incidents(v.incidents.push(incident)).at(loc) == v.at(
            loc,
        ).with_incidents(v.at(loc).incidents.push(incident)),
        !v.touches(loc) && loc.len() > 0 ==> v.at(loc) == v.with_incidents(Seq::empty()),
{
    let grown = v.with_incidents(v.incidents.push(incident));
    v.incidents.lemma_filter_push(incident, occurs_at(loc));
    lemma_filter_empty(v.incidents, loc);
    if v.touches(loc) {
        let j = choose|j: int| 0 <= j < v.incidents.len() && (#[trigger] v.incidents[j]).uri == loc;
        assert(grown.incidents[j].uri == loc);
    }
    if loc == incident.uri && loc.len() > 0 {
        assert(grown.incidents[v.incidents.len() as int].uri == loc);
    }
    if grown.touches(loc) {
        let j = choose|j: int| 0 <= j < grown.incidents.len()
            && (#[trigger] grown.incidents[j]).uri == loc;
        if j < v.incidents.len() {
            assert(v.incidents[j].uri == loc);
        }
    }
    if !v.touches(loc) && loc.len() > 0 {
        assert(v.incidents.filter(occurs_at(loc)) =~= Seq::<IncidentView>::empty());
    }
}

/// What noting an incident does to a rule set's reach and to its reduced forms.
pub proof fn lemma_noting(rs: RulesetView, n: Seq<char>, incident: IncidentView, loc: Seq<char>)
    requires
        rs.violations.contains_key(n),
    ensures
        rs.noting(n, incident).touches(loc) <==> rs.touches(loc) || (loc == incident.uri
            && loc.len() > 0),
        loc != incident.uri ==> rs.noting(n, incident).at(loc) == rs.at(loc),
        loc == incident.uri && loc.len() > 0 ==> rs.noting(n, incident).at(loc)
            == RulesetView::bare(rs.name).with_violations(
            rs.at(loc).violations.insert(
                n,
                rs.violations[n].at(loc).with_incidents(
                    rs.violations[n].at(loc).incidents.push(incident),
                ),
            ),
        ),
{
    let grown = rs.noting(n, incident);
    let v = rs.violations[n];
    lemma_violation_noting(v, incident, loc);
    assert(grown.violations[n] == v.with_incidents(v.incidents.push(incident)));
    if rs.touches(loc) {
        let m = choose|m: Seq<char>| rs.violations.contains_key(m)
            && (#[trigger] rs.violations[m]).touches(loc);
        assert(grown.violations.contains_key(m) && grown.violations[m].touches(loc));
    }
    if loc == incident.uri && loc.len() > 0 {
        assert(grown.violations.contains_key(n) && grown.violations[n].touches(loc));
    }
    if grown.touches(loc) {
        let m = choose|m: Seq<char>| grown.violations.contains_key(m)
            && (#[trigger] grown.violations[m]).touches(loc);
        if m != n {
            assert(rs.violations.contains_key(m) && rs.violations[m].touches(loc));
        } else if !(loc == incident.uri && loc.len() > 0) {
            assert(rs.violations.contains_key(n) && rs.violations[n].touches(loc));
        }
    }
    if loc != incident.uri {
        assert(grown.at(loc).violations =~= rs.at(loc).violations);
    }
    if loc == incident.uri && loc.len() > 0 {
        assert(grown.at(loc).violations =~= rs.at(loc).violations.insert(
            n,
            v.at(loc).with_incidents(v.at(loc).incidents.push(incident)),
        ));
    }
}

/// Taking an incident into the slot of a location is noting it in the rule
/// set and reducing afterwards.
pub proof fn lemma_taking(
    part: RulesetView,
    slice: RulesetView,
    n: Seq<char>,
    v: ViolationView,
    incident: IncidentView,
)
    requires
        part.violations.contains_key(n),
        part.violations[n].with_incidents(Seq::empty()) == v.with_incidents(Seq::empty()),
        incident.uri.len() > 0,
        slice == RulesetView::bare(part.name).with_violations(part.at(incident.uri).violations),
    ensures
        slice.taking(n, v, incident) == part.noting(n, incident).at(incident.uri),
{
    let loc = incident.uri;
    let held = part.violations[n];
    lemma_noting(part, n, incident, loc);
    lemma_violation_noting(held, incident, loc);
    assert(slice.noted_under(n, v) == held.at(loc));
}

/// An incident at the empty location changes nothing in the index.
pub proof fn lemma_absorb_skip(index: IndexView, rs: RulesetView, n: Seq<char>, incident: IncidentView)
    requires
        rs.violations.contains_key(n),
        incident.uri.len() == 0,
    ensures
        absorb(index, rs.noting(n, incident)) == absorb(index, rs),
{
    let grown = rs.noting(n, incident);
    assert forall|loc: Seq<char>| grown.touches(loc) == rs.touches(loc) by {
        lemma_noting(rs, n, incident, loc);
    }
    assert forall|loc: Seq<char>| rs.touches(loc) implies grown.at(loc) == rs.at(loc) by {
        lemma_noting(rs, n, incident, loc);
        let m = choose|m: Seq<char>| rs.violations.contains_key(m)
            && (#[trigger] rs.violations[m]).touches(loc);
        assert(loc.len() > 0);
    }
    assert(absorb(index, grown) =~= absorb(index, rs));
}

/// An incident at a proper location changes the index at that location only,
/// and there only the slot of the rule set's name.
pub proof fn lemma_absorb_noting(index: IndexView, rs: RulesetView, n: Seq<char>, incident: IncidentView)
    requires
        rs.violations.contains_key(n),
        incident.uri.len() > 0,
    ensures
        absorb(index, rs.noting(n, incident)) == absorb(index, rs).insert(
            incident.uri,
            held_at(index, incident.uri).insert(rs.name, rs.noting(n, incident).at(incident.uri)),
        ),
{
    let grown = rs.noting(n, incident);
    let target = absorb(index, rs).insert(
        incident.uri,
        held_at(index, incident.uri).insert(rs.name, grown.at(incident.uri)),
    );
    assert forall|loc: Seq<char>| grown.touches(loc) == (rs.touches(loc) || loc
        == incident.uri) by {
        lemma_noting(rs, n, incident, loc);
    }
    assert forall|loc: Seq<char>| loc != incident.uri implies grown.at(loc) == rs.at(loc) by {
        lemma_noting(rs, n, incident, loc);
    }
    assert(absorb(index, grown) =~= target);
}

/// A violation without incidents changes nothing in the index.
pub proof fn lemma_absorb_opening(index: IndexView, rs: RulesetView, n: Seq<char>, v: ViolationView)
    requires
        !rs.violations.contains_key(n),
        v.incidents.len() == 0,
    ensures
        absorb(index, rs.with_violations(rs.violations.insert(n, v))) == absorb(index, rs),
        forall|loc: Seq<char>|
            rs.with_violations(rs.violations.insert(n, v)).touches(loc) == rs.touches(loc),
{
    let grown = rs.with_violations(rs.violations.insert(n, v));
    assert(forall|loc: Seq<char>| !v.touches(loc));
    assert forall|loc: Seq<char>| grown.touches(loc) == rs.touches(loc) by {
        if rs.touches(loc) {
            let m = choose|m: Seq<char>| rs.violations.contains_key(m)
                && (#[trigger] rs.violations[m]).touches(loc);
            assert(grown.violations.contains_key(m) && grown.violations[m].touches(loc));
        }
        if grown.touches(loc) {
            let m = choose|m: Seq<char>| grown.violations.contains_key(m)
                && (#[trigger] grown.violations[m]).touches(loc);
            assert(rs.violations.contains_key(m) && rs.violations[m].touches(loc));
        }
    }
    assert forall|loc: Seq<char>| grown.at(loc) == rs.at(loc) by {
        assert(grown.at(loc).violations =~= rs.at(loc).violations);
    }
    assert(absorb(index, grown) =~= absorb(index, rs));
}

/// A rule set without violations changes nothing in the index.
pub proof fn lemma_absorb_nothing(index: IndexView, rs: RulesetView)
    requires
        rs.violations == Map::<Seq<char>, ViolationView>::empty(),
    ensures
        absorb(index, rs) == index,
{
    assert(forall|loc: Seq<char>| !rs.touches(loc));
    assert(absorb(index, rs) =~= index);
}

} // verus!
