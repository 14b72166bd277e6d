//! What holds of the impact index of every report.

use crate::impact::IndexView;
use crate::impact::held_at;
use crate::impact::impact_index;
use crate::impact::locations;
use crate::impact::occurs_at;
use crate::report::IncidentView;
use crate::report::RulesetView;
use vstd::prelude::*;

verus! {

/// The position of the last rule set of a report that has the given name and
/// touches the given location, where there is one.
pub open spec fn latest(report: Seq<RulesetView>, name: Seq<char>, loc: Seq<char>) -> Option<int>
    decreases report.len(),
{
    if report.len() == 0 {
        None
    } else if report.last().name == name && report.last().touches(loc) {
        Some(report.len() - 1)
    } else {
        latest(report.drop_last(), name, loc)
    }
}

/// `latest` finds the greatest position with the name and the location, and
/// finds none only where there is none.
pub proof fn law_latest(report: Seq<RulesetView>, name: Seq<char>, loc: Seq<char>)
    ensures
        match latest(report, name, loc) {
            Some(k) => {
                &&& 0 <= k < report.len()
                &&& report[k].name == name
                &&& report[k].touches(loc)
                &&& forall|later: int|
                    k < later < report.len() ==> !((#[trigger] report[later]).name == name
                        && report[later].touches(loc))
            },
            None => forall|k: int|
                0 <= k < report.len() ==> !((#[trigger] report[k]).name == name
                    && report[k].touches(
                    loc,
                )),
        },
    decreases report.len(),
{
    if report.len() > 0 && !(report.last().name == name && report.last().touches(loc)) {
        let shorter = report.drop_last();
        law_latest(shorter, name, loc);
        match latest(shorter, name, loc) {
            Some(k) => {
                assert(report[k] == shorter[k]);
                assert forall|later: int| k < later < report.len() implies !((
                #[trigger] report[later]).name == name && report[later].touches(loc)) by {
                    if later < shorter.len() {
                        assert(report[later] == shorter[later]);
                    }
                }
            },
            None => {
                assert forall|k: int| 0 <= k < report.len() implies !((#[trigger] report[k]).name
                    == name && report[k].touches(loc)) by {
                    if k < shorter.len() {
                        assert(report[k] == shorter[k]);
                    }
                }
            },
        }
    }
}

/// The index in closed form. Under a location and a name it holds something
/// exactly when some rule set of that name touches the location, and what it
/// holds is the last such rule set, reduced to the location.
pub proof fn law_lookup(report: Seq<RulesetView>, loc: Seq<char>, name: Seq<char>)
    ensures
        held_at(impact_index(report), loc).contains_key(name)
            <==> latest(report, name, loc).is_some(),
        latest(report, name, loc).is_some() ==> impact_index(report).contains_key(loc)
            && impact_index(report)[loc][name]
                == report[latest(report, name, loc).unwrap()].at(loc),
    decreases report.len(),
{
    if report.len() > 0 {
        let shorter = report.drop_last();
        law_lookup(shorter, loc, name);
        law_latest(report, name, loc);
    }
}

/// Every location that is a key of the index has something under it.
pub proof fn law_no_empty_location(report: Seq<RulesetView>, loc: Seq<char>)
    requires
        impact_index(report).contains_key(loc),
    ensures
        exists|name: Seq<char>| impact_index(report)[loc].contains_key(name),
    decreases report.len(),
{
    if report.len() > 0 {
        let shorter = report.drop_last();
        let last = report.last();
        if last.touches(loc) {
            assert(impact_index(report)[loc].contains_key(last.name));
        } else {
            law_no_empty_location(shorter, loc);
            let name = choose|name: Seq<char>| impact_index(shorter)[loc].contains_key(name);
            assert(impact_index(report)[loc].contains_key(name));
        }
    }
}

/// The keys of the index are the locations of the report.
pub proof fn law_keys_are_locations(report: Seq<RulesetView>)
    ensures
        impact_index(report).dom() == locations(report),
    decreases report.len(),
{
    if report.len() == 0 {
        assert(impact_index(report).dom() =~= locations(report));
    } else {
        let shorter = report.drop_last();
        law_keys_are_locations(shorter);
        assert forall|loc: Seq<char>| impact_index(report).contains_key(loc) <==> locations(
            report,
        ).contains(loc) by {
            if locations(report).contains(loc) {
                let k = choose|k: int| 0 <= k < report.len() && (#[trigger] report[k]).touches(loc);
                if k < shorter.len() {
                    assert(shorter[k].touches(loc));
                    assert(locations(shorter).contains(loc));
                }
            }
            if impact_index(report).contains_key(loc) {
                if report.last().touches(loc) {
                    assert(report[report.len() - 1].touches(loc));
                } else {
                    assert(locations(shorter).contains(loc));
                    let k = choose|k: int| 0 <= k < shorter.len()
                        && (#[trigger] shorter[k]).touches(loc);
                    assert(report[k].touches(loc));
                }
            }
        }
        assert(impact_index(report).dom() =~= locations(report));
    }
}

/// No location is a key of the index unless it is a proper one.
pub proof fn law_keys_are_proper(report: Seq<RulesetView>, loc: Seq<char>)
    requires
        impact_index(report).contains_key(loc),
    ensures
        loc.len() > 0,
{
    law_keys_are_locations(report);
    let k = choose|k: int| 0 <= k < report.len() && (#[trigger] report[k]).touches(loc);
    let n = choose|n: Seq<char>| report[k].violations.contains_key(n)
        && (#[trigger] report[k].violations[n]).touches(loc);
}

/// Every incident found under a location lies at that location.
pub proof fn law_no_foreign_incident(
    report: Seq<RulesetView>,
    loc: Seq<char>,
    name: Seq<char>,
    n: Seq<char>,
    j: int,
)
    requires
        impact_index(report).contains_key(loc),
        impact_index(report)[loc].contains_key(name),
        impact_index(report)[loc][name].violations.contains_key(n),
        0 <= j < impact_index(report)[loc][name].violations[n].incidents.len(),
    ensures
        impact_index(report)[loc][name].violations[n].incidents[j].uri == loc,
{
    law_lookup(report, loc, name);
    law_latest(report, name, loc);
    let k = latest(report, name, loc).unwrap();
    report[k].violations[n].incidents.lemma_filter_pred(occurs_at(loc), j);
}

/// What stands in the index is a reduced rule set: it carries its own name,
/// no tags, insights, errors or unmatched entries, and no violation without
/// an incident.
pub proof fn law_slot_shape(report: Seq<RulesetView>, loc: Seq<char>, name: Seq<char>)
    requires
        impact_index(report).contains_key(loc),
        impact_index(report)[loc].contains_key(name),
    ensures
        impact_index(report)[loc][name] == RulesetView::bare(name).with_violations(
            impact_index(report)[loc][name].violations,
        ),
        forall|n: Seq<char>| #[trigger]
            impact_index(report)[loc][name].violations.contains_key(n) ==> impact_index(
                report,
            )[loc][name].violations[n].incidents.len() > 0,
{
    law_lookup(report, loc, name);
    law_latest(report, name, loc);
    let k = latest(report, name, loc).unwrap();
    assert forall|n: Seq<char>| #[trigger]
        impact_index(report)[loc][name].violations.contains_key(n) implies impact_index(
        report,
    )[loc][name].violations[n].incidents.len() > 0 by {
        let v = report[k].violations[n];
        let j = choose|j: int| 0 <= j < v.incidents.len() && (#[trigger] v.incidents[j]).uri == loc;
        v.incidents.lemma_filter_contains(occurs_at(loc), j);
    }
}

/// Filtering by location keeps the number of times that an incident of the
/// location occurs.
pub proof fn lemma_filter_keeps_count(s: Seq<IncidentView>, loc: Seq<char>, x: IncidentView)
    requires
        x.uri == loc,
    ensures
        s.filter(occurs_at(loc)).to_multiset().count(x) == s.to_multiset().count(x),
    decreases s.len(),
{
    broadcast use vstd::seq_lib::group_to_multiset_ensures;

    if s.len() == 0 {
        reveal(Seq::filter);
        assert(s.filter(occurs_at(loc)) =~= s);
    } else {
        let shorter = s.drop_last();
        let y = s.last();
        lemma_filter_keeps_count(shorter, loc, x);
        assert(s =~= shorter.push(y));
        shorter.lemma_filter_push(y, occurs_at(loc));
    }
}

/// An incident at a proper location is found in the index under its
/// location, its rule set's name and its violation's name, in a list that is
/// the violation's own list reduced to that location, so that it occurs there
/// as often as in the source, beside the violation's other fields unchanged.
/// This is stated of a rule set that no later one of the same name displaces
/// at that location.
pub proof fn law_completeness(report: Seq<RulesetView>, k: int, n: Seq<char>, j: int)
    requires
        0 <= k < report.len(),
        report[k].violations.contains_key(n),
        0 <= j < report[k].violations[n].incidents.len(),
        report[k].violations[n].incidents[j].uri.len() > 0,
        forall|later: int|
            k < later < report.len() ==> !((#[trigger] report[later]).name == report[k].name
                && report[later].touches(report[k].violations[n].incidents[j].uri)),
    ensures
        ({
            let incident = report[k].violations[n].incidents[j];
            let index = impact_index(report);
            &&& index.contains_key(incident.uri)
            &&& index[incident.uri].contains_key(report[k].name)
            &&& index[incident.uri][report[k].name].violations.contains_key(n)
            &&& index[incident.uri][report[k].name].violations[n] == report[k].violations[n].at(
                incident.uri,
            )
            &&& index[incident.uri][report[k].name].violations[n].incidents.contains(incident)
            &&& index[incident.uri][report[k].name].violations[n].incidents.to_multiset().count(
                incident,
            ) == report[k].violations[n].incidents.to_multiset().count(incident)
        }),
{
    let v = report[k].violations[n];
    let incident = v.incidents[j];
    let loc = incident.uri;
    let name = report[k].name;
    assert(v.touches(loc));
    assert(report[k].touches(loc));
    law_latest(report, name, loc);
    law_lookup(report, loc, name);
    assert(latest(report, name, loc) == Some(k));
    v.incidents.lemma_filter_contains(occurs_at(loc), j);
    lemma_filter_keeps_count(v.incidents, loc, incident);
}

/// A report without incidents has the empty index.
pub proof fn law_no_incidents_no_index(report: Seq<RulesetView>)
    requires
        forall|k: int, n: Seq<char>|
            0 <= k < report.len() && (#[trigger] report[k].violations.contains_key(n))
                ==> report[k].violations[n].incidents.len() == 0,
    ensures
        impact_index(report) == IndexView::empty(),
{
    law_keys_are_locations(report);
    assert forall|loc: Seq<char>| !locations(report).contains(loc) by {
        if locations(report).contains(loc) {
            let k = choose|k: int| 0 <= k < report.len() && (#[trigger] report[k]).touches(loc);
            let n = choose|n: Seq<char>| report[k].violations.contains_key(n)
                && (#[trigger] report[k].violations[n]).touches(loc);
            assert(report[k].violations.contains_key(n));
        }
    }
    assert(impact_index(report) =~= IndexView::empty());
}

/// Two indexes built from reports that are equal as values are equal as
/// values: building again changes nothing.
pub proof fn law_rebuild(first: Seq<RulesetView>, second: Seq<RulesetView>)
    requires
        first =~= second,
    ensures
        impact_index(first) == impact_index(second),
{
}

/// Reducing a list to one location keeps the order of what stays: of two
/// incidents of the reduced list, the earlier one stands earlier in the source.
pub proof fn law_order_kept(s: Seq<IncidentView>, loc: Seq<char>, i: int, j: int)
    requires
        0 <= i < j < s.filter(occurs_at(loc)).len(),
    ensures
        exists|p: int, q: int|
            0 <= p < q < s.len() && s[p] == s.filter(occurs_at(loc))[i] && s[q] == s.filter(
                occurs_at(loc),
            )[j],
    decreases s.len(),
{
    let kept = s.filter(occurs_at(loc));
    if s.len() == 0 {
        reveal(Seq::filter);
    } else {
        let shorter = s.drop_last();
        let x = s.last();
        let before = shorter.filter(occurs_at(loc));
        assert(s =~= shorter.push(x));
        shorter.lemma_filter_push(x, occurs_at(loc));
        if j < before.len() {
            law_order_kept(shorter, loc, i, j);
            let (p, q) = choose|p: int, q: int|
                0 <= p < q < shorter.len() && shorter[p] == before[i] && shorter[q] == before[j];
            assert(s[p] == kept[i] && s[q] == kept[j]);
        } else {
            assert(before.contains(before[i]));
            shorter.lemma_filter_contains_rev(occurs_at(loc), before[i]);
            let p = choose|p: int| 0 <= p < shorter.len() && shorter[p] == before[i];
            let q = s.len() - 1;
            assert(s[p] == kept[i] && s[q] == kept[j]);
        }
    }
}

} // verus!
