//! Counting incidents, in a report and in its index.

use crate::impact::IndexView;
use crate::impact::absorb;
use crate::impact::held_at;
use crate::impact::impact_index;
use crate::impact::occurs_at;
use crate::laws::latest;
use crate::laws::law_latest;
use crate::laws::law_lookup;
use crate::report::IncidentView;
use crate::report::RulesetView;
use crate::steps::lemma_filter_empty;
use crate::sums::lemma_sum_add;
use crate::sums::lemma_sum_agree;
use crate::sums::lemma_sum_insert;
use crate::sums::lemma_sum_remove;
use crate::sums::lemma_sum_support;
use crate::sums::lemma_sum_swap;
use crate::sums::sum_over;
use vstd::prelude::*;

verus! {

/// The number of incidents of a rule set, over all its violations.
pub open spec fn ruleset_total(rs: RulesetView) -> nat {
    sum_over(rs.violations.dom(), |n: Seq<char>| rs.violations[n].incidents.len())
}

/// The number of incidents of a report, over all its rule sets.
pub open spec fn report_total(report: Seq<RulesetView>) -> nat
    decreases report.len(),
{
    if report.len() == 0 {
        0
    } else {
        report_total(report.drop_last()) + ruleset_total(report.last())
    }
}

/// The number of incidents held for one location.
pub open spec fn slices_total(slices: Map<Seq<char>, RulesetView>) -> nat {
    sum_over(slices.dom(), |name: Seq<char>| ruleset_total(slices[name]))
}

/// The number of incidents of an index, over all its locations.
pub open spec fn index_total(index: IndexView) -> nat {
    sum_over(index.dom(), |loc: Seq<char>| slices_total(index[loc]))
}

/// The locations that the violations under the given names touch.
pub open spec fn touched_by(rs: RulesetView, names: Set<Seq<char>>) -> Set<Seq<char>> {
    Set::new(|loc: Seq<char>| exists|n: Seq<char>| names.contains(n)
        && (#[trigger] rs.violations[n]).touches(loc))
}

/// The locations that a rule set touches.
pub open spec fn touched(rs: RulesetView) -> Set<Seq<char>> {
    Set::new(|loc: Seq<char>| rs.touches(loc))
}

/// Finitely many violations touch finitely many locations.
pub proof fn lemma_touched_by_finite(rs: RulesetView, names: Set<Seq<char>>)
    requires
        names.finite(),
    ensures
        touched_by(rs, names).finite(),
    decreases names.len(),
{
    if names.len() == 0 {
        assert(touched_by(rs, names) =~= Set::<Seq<char>>::empty());
    } else {
        let n = names.choose();
        let v = rs.violations[n];
        let fewer = names.remove(n);
        lemma_touched_by_finite(rs, fewer);
        let uris = v.incidents.map_values(|i: IncidentView| i.uri).to_set();
        let own = Set::new(|loc: Seq<char>| v.touches(loc));
        vstd::seq_lib::seq_to_set_is_finite(v.incidents.map_values(|i: IncidentView| i.uri));
        assert forall|loc: Seq<char>| own.contains(loc) implies uris.contains(loc) by {
            let j = choose|j: int| 0 <= j < v.incidents.len() && (#[trigger] v.incidents[j]).uri
                == loc;
            assert(v.incidents.map_values(|i: IncidentView| i.uri)[j] == loc);
        }
        vstd::set_lib::lemma_set_subset_finite(uris, own);
        assert forall|loc: Seq<char>| touched_by(rs, names).contains(loc) <==> touched_by(
            rs,
            fewer,
        ).union(own).contains(loc) by {
            if touched_by(rs, names).contains(loc) {
                let m = choose|m: Seq<char>| names.contains(m)
                    && (#[trigger] rs.violations[m]).touches(loc);
                if m != n {
                    assert(fewer.contains(m) && rs.violations[m].touches(loc));
                }
            }
            if touched_by(rs, fewer).contains(loc) {
                let m = choose|m: Seq<char>| fewer.contains(m)
                    && (#[trigger] rs.violations[m]).touches(loc);
                assert(names.contains(m) && rs.violations[m].touches(loc));
            }
            if own.contains(loc) {
                assert(names.contains(n) && rs.violations[n].touches(loc));
            }
        }
        assert(touched_by(rs, names) =~= touched_by(rs, fewer).union(own));
    }
}

/// A rule set with finitely many violations touches finitely many locations.
pub proof fn lemma_touched_finite(rs: RulesetView)
    requires
        rs.violations.dom().finite(),
    ensures
        touched(rs).finite(),
{
    lemma_touched_by_finite(rs, rs.violations.dom());
    assert(touched(rs) =~= touched_by(rs, rs.violations.dom()));
}

/// The lists of a violation's incidents at each location have, together, the
/// length of the violation's own list.
pub proof fn lemma_partition(s: Seq<IncidentView>, locs: Set<Seq<char>>)
    requires
        locs.finite(),
        forall|j: int| 0 <= j < s.len() ==> locs.contains((#[trigger] s[j]).uri),
    ensures
        sum_over(locs, |loc: Seq<char>| s.filter(occurs_at(loc)).len()) == s.len(),
    decreases s.len(),
{
    let whole = |loc: Seq<char>| s.filter(occurs_at(loc)).len();
    if s.len() == 0 {
        let nothing = Set::<Seq<char>>::empty();
        assert forall|loc: Seq<char>| locs.contains(loc) implies #[trigger] whole(loc) == 0 by {
            lemma_filter_empty(s, loc);
        }
        lemma_sum_support(locs, nothing, whole);
    } else {
        let shorter = s.drop_last();
        let x = s.last();
        let before = |loc: Seq<char>| shorter.filter(occurs_at(loc)).len();
        let one = |loc: Seq<char>|
            if x.uri == loc {
                1nat
            } else {
                0nat
            };
        assert forall|j: int| 0 <= j < shorter.len()
            implies locs.contains((#[trigger] shorter[j]).uri) by {
            assert(shorter[j] == s[j]);
        }
        lemma_partition(shorter, locs);
        assert(s =~= shorter.push(x));
        assert forall|loc: Seq<char>| locs.contains(loc) implies #[trigger] whole(loc)
            == before(loc) + one(
            loc,
        ) by {
            shorter.lemma_filter_push(x, occurs_at(loc));
        }
        lemma_sum_add(locs, before, one, whole);
        assert(locs.contains(s[s.len() - 1].uri));
        lemma_sum_remove(locs, one, x.uri);
        lemma_sum_support(locs.remove(x.uri), Set::<Seq<char>>::empty(), one);
    }
}

/// Every incident of the rule set has a proper location.
pub open spec fn located(rs: RulesetView) -> bool {
    forall|n: Seq<char>, j: int|
        rs.violations.contains_key(n) && 0 <= j < rs.violations[n].incidents.len() ==> (
        #[trigger] rs.violations[n].incidents[j]).uri.len() > 0
}

/// The reduced forms of a rule set at the locations that it touches hold,
/// together, as many incidents as the rule set.
pub proof fn lemma_ruleset_slices_total(rs: RulesetView)
    requires
        rs.violations.dom().finite(),
        located(rs),
    ensures
        touched(rs).finite(),
        sum_over(touched(rs), |loc: Seq<char>| ruleset_total(rs.at(loc))) == ruleset_total(rs),
{
    let locs = touched(rs);
    let names = rs.violations.dom();
    lemma_touched_finite(rs);
    let cell = |loc: Seq<char>, n: Seq<char>| rs.violations[n].incidents.filter(occurs_at(loc)).len();
    let by_row = |loc: Seq<char>| ruleset_total(rs.at(loc));
    let by_column = |n: Seq<char>| rs.violations[n].incidents.len();
    assert forall|loc: Seq<char>| locs.contains(loc) implies #[trigger] by_row(loc) == sum_over(
        names,
        |n: Seq<char>| cell(loc, n),
    ) by {
        let part = rs.at(loc).violations.dom();
        let held = |n: Seq<char>| rs.at(loc).violations[n].incidents.len();
        let all = |n: Seq<char>| cell(loc, n);
        let m = choose|m: Seq<char>| rs.violations.contains_key(m)
            && (#[trigger] rs.violations[m]).touches(loc);
        assert(loc.len() > 0);
        assert forall|n: Seq<char>| names.contains(n) && !part.contains(n) implies #[trigger] all(n)
            == 0 by {
            lemma_filter_empty(rs.violations[n].incidents, loc);
        }
        lemma_sum_support(names, part, all);
        lemma_sum_agree(part, held, all);
    }
    assert forall|n: Seq<char>| names.contains(n) implies #[trigger] by_column(n) == sum_over(
        locs,
        |loc: Seq<char>| cell(loc, n),
    ) by {
        let s = rs.violations[n].incidents;
        assert forall|j: int| 0 <= j < s.len() implies locs.contains((#[trigger] s[j]).uri) by {
            assert(rs.violations[n].incidents[j].uri.len() > 0);
            assert(rs.violations[n].touches(s[j].uri));
        }
        lemma_partition(s, locs);
        lemma_sum_agree(
            locs,
            |loc: Seq<char>| s.filter(occurs_at(loc)).len(),
            |loc: Seq<char>| cell(loc, n),
        );
    }
    lemma_sum_swap(locs, names, cell, by_row, by_column);
}

/// The index has finitely many locations and finitely many rule sets at each.
pub open spec fn finite_index(index: IndexView) -> bool {
    &&& index.dom().finite()
    &&& forall|loc: Seq<char>| index.contains_key(loc) ==> (#[trigger] index[loc]).dom().finite()
}

/// A rule set that displaces nothing adds its incidents to the index's total.
pub proof fn lemma_absorb_total(index: IndexView, rs: RulesetView)
    requires
        finite_index(index),
        rs.violations.dom().finite(),
        located(rs),
        forall|loc: Seq<char>| #[trigger] rs.touches(loc)
            ==> !held_at(index, loc).contains_key(rs.name),
    ensures
        finite_index(absorb(index, rs)),
        index_total(absorb(index, rs)) == index_total(index) + ruleset_total(rs),
{
    let after = absorb(index, rs);
    let locs = touched(rs);
    lemma_ruleset_slices_total(rs);
    let all = index.dom().union(locs);
    assert(after.dom() =~= all);
    assert forall|loc: Seq<char>| after.contains_key(loc)
        implies (#[trigger] after[loc]).dom().finite() by {
        if rs.touches(loc) {
            assert(after[loc].dom() =~= held_at(index, loc).dom().insert(rs.name));
        }
    }
    let had = |loc: Seq<char>| slices_total(held_at(index, loc));
    let got = |loc: Seq<char>|
        if rs.touches(loc) {
            ruleset_total(rs.at(loc))
        } else {
            0nat
        };
    let now = |loc: Seq<char>| slices_total(after[loc]);
    assert forall|loc: Seq<char>| all.contains(loc) implies #[trigger] now(loc)
        == had(loc) + got(loc) by {
        if rs.touches(loc) {
            let held = held_at(index, loc);
            let after_here = |name: Seq<char>| ruleset_total(after[loc][name]);
            let before_here = |name: Seq<char>| ruleset_total(held[name]);
            assert(after[loc].dom() =~= held.dom().insert(rs.name));
            lemma_sum_insert(held.dom(), after_here, rs.name);
            lemma_sum_agree(held.dom(), after_here, before_here);
        }
    }
    lemma_sum_add(all, had, got, now);
    assert forall|loc: Seq<char>| all.contains(loc) && !index.dom().contains(loc)
        implies #[trigger] had(
        loc,
    ) == 0 by {
        assert(held_at(index, loc).dom() =~= Set::<Seq<char>>::empty());
    }
    lemma_sum_support(all, index.dom(), had);
    lemma_sum_agree(index.dom(), had, |loc: Seq<char>| slices_total(index[loc]));
    lemma_sum_support(all, locs, got);
    lemma_sum_agree(locs, got, |loc: Seq<char>| ruleset_total(rs.at(loc)));
}

/// Each rule set of the report has finitely many violations.
pub open spec fn finite_report(report: Seq<RulesetView>) -> bool {
    forall|k: int| 0 <= k < report.len() ==> (#[trigger] report[k]).violations.dom().finite()
}

/// Every incident of the report has a proper location.
pub open spec fn all_located(report: Seq<RulesetView>) -> bool {
    forall|k: int| 0 <= k < report.len() ==> located(#[trigger] report[k])
}

/// No rule set displaces an earlier one: two of the same name touch no
/// common location.
pub open spec fn undisplaced(report: Seq<RulesetView>) -> bool {
    forall|a: int, b: int, loc: Seq<char>|
        0 <= a < b < report.len() && (#[trigger] report[a].touches(loc)) && (
        #[trigger] report[b].touches(loc)) ==> report[a].name != report[b].name
}

/// The index holds as many incidents as the report, where every incident has
/// a proper location and no rule set displaces another.
pub proof fn law_count_conservation(report: Seq<RulesetView>)
    requires
        finite_report(report),
        all_located(report),
        undisplaced(report),
    ensures
        finite_index(impact_index(report)),
        index_total(impact_index(report)) == report_total(report),
    decreases report.len(),
{
    if report.len() == 0 {
        assert(impact_index(report).dom() =~= Set::<Seq<char>>::empty());
    } else {
        let shorter = report.drop_last();
        let last = report.last();
        assert forall|k: int| 0 <= k < shorter.len()
            implies (#[trigger] shorter[k]).violations.dom().finite()
            && located(shorter[k]) by {
            assert(shorter[k] == report[k]);
        }
        assert forall|a: int, b: int, loc: Seq<char>|
            0 <= a < b < shorter.len() && (#[trigger] shorter[a].touches(loc)) && (
            #[trigger] shorter[b].touches(loc)) implies shorter[a].name != shorter[b].name by {
            assert(report[a].touches(loc) && report[b].touches(loc));
        }
        law_count_conservation(shorter);
        assert forall|loc: Seq<char>| #[trigger] last.touches(loc) implies !held_at(
            impact_index(shorter),
            loc,
        ).contains_key(last.name) by {
            law_lookup(shorter, loc, last.name);
            law_latest(shorter, last.name, loc);
            if latest(shorter, last.name, loc).is_some() {
                let k = latest(shorter, last.name, loc).unwrap();
                assert(report[k].touches(loc));
                assert(report[report.len() - 1].touches(loc));
            }
        }
        lemma_absorb_total(impact_index(shorter), last);
    }
}

} // verus!
