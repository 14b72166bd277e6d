//! The analysis report: rule sets, violations, insights and incidents.

use crate::name_map::NameMap;
use std::collections::HashMap;
use vstd::prelude::*;

verus! {

/// `serde_json::Value`, the structured value that an incident attaches to a
/// name. It is declared so that incidents can carry it along; nothing is said
/// of what is inside.
#[verifier::external_type_specification]
#[verifier::external_body]
pub struct ExJsonValue(serde_json::Value);

/// The characters of an optional text.
pub open spec fn text_of(t: Option<String>) -> Option<Seq<char>> {
    match t {
        Some(s) => Some(s@),
        None => None,
    }
}

/// The characters of each text of a list, in order.
pub open spec fn texts_of(ts: Seq<String>) -> Seq<Seq<char>> {
    Seq::new(ts.len(), |i: int| ts[i]@)
}

/// A copy of an optional text.
pub fn copy_text(t: &Option<String>) -> (r: Option<String>)
    ensures
        text_of(r) == text_of(*t),
{
    match t {
        Some(s) => Some(s.clone()),
        None => None,
    }
}

/// A copy of a list of texts.
pub fn copy_texts(ts: &Vec<String>) -> (r: Vec<String>)
    ensures
        texts_of(r@) == texts_of(ts@),
{
    let mut out: Vec<String> = Vec::new();
    let mut i: usize = 0;
    while i < ts.len()
        invariant
            i <= ts.len(),
            out.len() == i,
            forall|j: int| 0 <= j < i ==> out[j]@ == ts[j]@,
        decreases ts.len() - i,
    {
        out.push(ts[i].clone());
        i += 1;
    }
    assert(texts_of(out@) =~= texts_of(ts@));
    out
}

/// One occurrence of a violation at a source location.
#[derive(Debug)]
pub struct Incident {
    pub uri: String,
    pub message: String,
    pub code_snip: Option<String>,
    pub line_number: Option<i32>,
    pub variables: HashMap<String, serde_json::Value>,
}

/// An incident as a mathematical value.
pub struct IncidentView {
    pub uri: Seq<char>,
    pub message: Seq<char>,
    pub code_snip: Option<Seq<char>>,
    pub line_number: Option<i32>,
    pub variables: Map<String, serde_json::Value>,
}

impl View for Incident {
    type V = IncidentView;

    open spec fn view(&self) -> IncidentView {
        IncidentView {
            uri: self.uri@,
            message: self.message@,
            code_snip: text_of(self.code_snip),
            line_number: self.line_number,
            variables: self.variables@,
        }
    }
}

impl Clone for Incident {
    fn clone(&self) -> (r: Self)
        ensures
            r@ == self@,
    {
        Incident {
            uri: self.uri.clone(),
            message: self.message.clone(),
            code_snip: copy_text(&self.code_snip),
            line_number: self.line_number,
            variables: self.variables.clone(),
        }
    }
}

impl Default for Incident {
    fn default() -> (r: Self)
        ensures
            r@ == (IncidentView {
                uri: Seq::empty(),
                message: Seq::empty(),
                code_snip: None,
                line_number: None,
                variables: Map::empty(),
            }),
    {
        Incident {
            uri: String::new(),
            message: String::new(),
            code_snip: None,
            line_number: None,
            variables: HashMap::new(),
        }
    }
}

/// The views of a list of incidents, in order.
pub open spec fn incidents_of(incidents: Seq<Incident>) -> Seq<IncidentView> {
    Seq::new(incidents.len(), |i: int| incidents[i]@)
}

/// A copy of a list of incidents.
pub fn copy_incidents(incidents: &Vec<Incident>) -> (r: Vec<Incident>)
    ensures
        incidents_of(r@) == incidents_of(incidents@),
{
    let mut out: Vec<Incident> = Vec::new();
    let mut i: usize = 0;
    while i < incidents.len()
        invariant
            i <= incidents.len(),
            out.len() == i,
            forall|j: int| 0 <= j < i ==> out[j]@ == incidents[j]@,
        decreases incidents.len() - i,
    {
        out.push(incidents[i].clone());
        i += 1;
    }
    assert(incidents_of(out@) =~= incidents_of(incidents@));
    out
}

/// What one rule found: its description and every place where it applies.
#[derive(Debug)]
pub struct Violation {
    pub description: String,
    pub category: Option<String>,
    pub labels: Vec<String>,
    pub incidents: Vec<Incident>,
    pub effort: Option<i32>,
}

/// A violation as a mathematical value.
pub struct ViolationView {
    pub description: Seq<char>,
    pub category: Option<Seq<char>>,
    pub labels: Seq<Seq<char>>,
    pub incidents: Seq<IncidentView>,
    pub effort: Option<i32>,
}

impl View for Violation {
    type V = ViolationView;

    open spec fn view(&self) -> ViolationView {
        ViolationView {
            description: self.description@,
            category: text_of(self.category),
            labels: texts_of(self.labels@),
            incidents: incidents_of(self.incidents@),
            effort: self.effort,
        }
    }
}

impl ViolationView {
    /// The same finding with another list of incidents.
    pub open spec fn with_incidents(self, incidents: Seq<IncidentView>) -> ViolationView {
        ViolationView { incidents, ..self }
    }
}

impl Violation {
    /// A copy that keeps every field but the incidents, of which it has none.
    pub fn stripped(&self) -> (r: Violation)
        ensures
            r@ == self@.with_incidents(Seq::empty()),
    {
        let r = Violation {
            description: self.description.clone(),
            category: copy_text(&self.category),
            labels: copy_texts(&self.labels),
            incidents: Vec::new(),
            effort: self.effort,
        };
        assert(r@.incidents =~= Seq::<IncidentView>::empty());
        r
    }
}

impl Clone for Violation {
    fn clone(&self) -> (r: Self)
        ensures
            r@ == self@,
    {
        Violation {
            description: self.description.clone(),
            category: copy_text(&self.category),
            labels: copy_texts(&self.labels),
            incidents: copy_incidents(&self.incidents),
            effort: self.effort,
        }
    }
}

impl Default for Violation {
    fn default() -> (r: Self)
        ensures
            r@ == (ViolationView {
                description: Seq::empty(),
                category: None,
                labels: Seq::empty(),
                incidents: Seq::empty(),
                effort: None,
            }),
    {
        let r = Violation {
            description: String::new(),
            category: None,
            labels: Vec::new(),
            incidents: Vec::new(),
            effort: None,
        };
        assert(r@.labels =~= Seq::<Seq<char>>::empty());
        assert(r@.incidents =~= Seq::<IncidentView>::empty());
        r
    }
}

/// An informational finding: shaped like a violation, but no violation.
#[derive(Debug)]
pub struct Insight {
    pub description: String,
    pub category: Option<String>,
    pub labels: Vec<String>,
    pub incidents: Vec<Incident>,
}

/// An insight as a mathematical value.
pub struct InsightView {
    pub description: Seq<char>,
    pub category: Option<Seq<char>>,
    pub labels: Seq<Seq<char>>,
    pub incidents: Seq<IncidentView>,
}

impl View for Insight {
    type V = InsightView;

    open spec fn view(&self) -> InsightView {
        InsightView {
            description: self.description@,
            category: text_of(self.category),
            labels: texts_of(self.labels@),
            incidents: incidents_of(self.incidents@),
        }
    }
}

impl Clone for Insight {
    fn clone(&self) -> (r: Self)
        ensures
            r@ == self@,
    {
        Insight {
            description: self.description.clone(),
            category: copy_text(&self.category),
            labels: copy_texts(&self.labels),
            incidents: copy_incidents(&self.incidents),
        }
    }
}

impl Default for Insight {
    fn default() -> (r: Self)
        ensures
            r@ == (InsightView {
                description: Seq::empty(),
                category: None,
                labels: Seq::empty(),
                incidents: Seq::empty(),
            }),
    {
        let r = Insight {
            description: String::new(),
            category: None,
            labels: Vec::new(),
            incidents: Vec::new(),
        };
        assert(r@.labels =~= Seq::<Seq<char>>::empty());
        assert(r@.incidents =~= Seq::<IncidentView>::empty());
        r
    }
}

/// The violations of a map, each as a mathematical value, under the same names.
pub open spec fn violations_of(m: Map<Seq<char>, Violation>) -> Map<Seq<char>, ViolationView> {
    Map::new(|n: Seq<char>| m.contains_key(n), |n: Seq<char>| m[n]@)
}

/// The insights of a map, each as a mathematical value, under the same names.
pub open spec fn insights_of(m: Map<Seq<char>, Insight>) -> Map<Seq<char>, InsightView> {
    Map::new(|n: Seq<char>| m.contains_key(n), |n: Seq<char>| m[n]@)
}

/// The messages of a map, each as its characters, under the same identifiers.
pub open spec fn messages_of(m: Map<Seq<char>, String>) -> Map<Seq<char>, Seq<char>> {
    Map::new(|n: Seq<char>| m.contains_key(n), |n: Seq<char>| m[n]@)
}

/// A named collection of findings.
pub struct Ruleset {
    pub name: String,
    pub tags: Vec<String>,
    pub violations: NameMap<Violation>,
    pub insights: NameMap<Insight>,
    pub errors: NameMap<String>,
    pub unmatched: Vec<String>,
}

/// A rule set as a mathematical value.
pub struct RulesetView {
    pub name: Seq<char>,
    pub tags: Seq<Seq<char>>,
    pub violations: Map<Seq<char>, ViolationView>,
    pub insights: Map<Seq<char>, InsightView>,
    pub errors: Map<Seq<char>, Seq<char>>,
    pub unmatched: Seq<Seq<char>>,
}

impl View for Ruleset {
    type V = RulesetView;

    open spec fn view(&self) -> RulesetView {
        RulesetView {
            name: self.name@,
            tags: texts_of(self.tags@),
            violations: violations_of(self.violations@),
            insights: insights_of(self.insights@),
            errors: messages_of(self.errors@),
            unmatched: texts_of(self.unmatched@),
        }
    }
}

impl RulesetView {
    /// A rule set of this name with nothing in it.
    pub open spec fn bare(name: Seq<char>) -> RulesetView {
        RulesetView {
            name,
            tags: Seq::empty(),
            violations: Map::empty(),
            insights: Map::empty(),
            errors: Map::empty(),
            unmatched: Seq::empty(),
        }
    }

    /// The same rule set with other violations.
    pub open spec fn with_violations(self, violations: Map<Seq<char>, ViolationView>)
        -> RulesetView {
        RulesetView { violations, ..self }
    }
}

impl Ruleset {
    /// The three maps of the rule set are well formed.
    pub open spec fn wf(&self) -> bool {
        &&& self.violations.wf()
        &&& self.insights.wf()
        &&& self.errors.wf()
    }

    /// A rule set of the given name with nothing in it.
    pub fn new(name: String) -> (r: Ruleset)
        ensures
            r.wf(),
            r@ == RulesetView::bare(name@),
    {
        let r = Ruleset {
            name,
            tags: Vec::new(),
            violations: NameMap::new(),
            insights: NameMap::new(),
            errors: NameMap::new(),
            unmatched: Vec::new(),
        };
        assert(r@.tags =~= Seq::<Seq<char>>::empty());
        assert(r@.unmatched =~= Seq::<Seq<char>>::empty());
        assert(r@.violations =~= Map::<Seq<char>, ViolationView>::empty());
        assert(r@.insights =~= Map::<Seq<char>, InsightView>::empty());
        assert(r@.errors =~= Map::<Seq<char>, Seq<char>>::empty());
        r
    }

    /// A copy that keeps the name and nothing else.
    pub fn stripped(&self) -> (r: Ruleset)
        ensures
            r.wf(),
            r@ == RulesetView::bare(self@.name),
    {
        Ruleset::new(self.name.clone())
    }
}

impl Default for Ruleset {
    fn default() -> (r: Self)
        ensures
            r.wf(),
            r@ == RulesetView::bare(Seq::empty()),
    {
        Ruleset::new(String::new())
    }
}

/// A parsed analysis report: rule sets in the order of the source document.
pub struct AnalysisReport {
    pub rulesets: Vec<Ruleset>,
}

impl View for AnalysisReport {
    type V = Seq<RulesetView>;

    open spec fn view(&self) -> Seq<RulesetView> {
        Seq::new(self.rulesets.len() as nat, |k: int| self.rulesets[k]@)
    }
}

impl AnalysisReport {
    /// Every rule set of the report is well formed.
    pub open spec fn wf(&self) -> bool {
        forall|k: int| 0 <= k < self.rulesets.len() ==> (#[trigger] self.rulesets[k]).wf()
    }
}

impl Default for AnalysisReport {
    fn default() -> (r: Self)
        ensures
            r.wf(),
            r@ == Seq::<RulesetView>::empty(),
    {
        let r = AnalysisReport { rulesets: Vec::new() };
        assert(r@ =~= Seq::<RulesetView>::empty());
        r
    }
}

} // verus!
