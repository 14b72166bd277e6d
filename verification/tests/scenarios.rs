use kai::checks::IndexError;
use kai::filter::names_outside;
use kai::name_map::NameMap;
use kai::report::AnalysisReport;
use kai::report::Incident;
use kai::report::Insight;
use kai::report::Ruleset;
use kai::report::Violation;

const U1: &str = "file:///examples/java/pom.xml";
const U2: &str = "file:///examples/golang/go.mod";
const U3: &str = "file:///root/.m2/repository/io/konveyor/demo/config-utils/1.0.0/config-utils-1.0.0.jar";

fn incident(uri: &str, message: &str) -> Incident {
    let mut i = Incident::default();
    i.uri = uri.to_string();
    i.message = message.to_string();
    i
}

fn violation(description: &str, incidents: Vec<Incident>) -> Violation {
    let mut v = Violation::default();
    v.description = description.to_string();
    v.incidents = incidents;
    v
}

fn ruleset(name: &str, violations: Vec<(&str, Violation)>) -> Ruleset {
    let mut r = Ruleset::new(name.to_string());
    for (n, v) in violations {
        r.violations.insert(n.to_string(), v);
    }
    r
}

fn messages(v: &Violation) -> Vec<String> {
    v.incidents.iter().map(|i| i.message.clone()).collect()
}

fn total_in_index(index: &NameMap<NameMap<Ruleset>>) -> usize {
    let mut total = 0;
    for l in 0..index.len() {
        let slices = index.value_at(l);
        for s in 0..slices.len() {
            let slice = slices.value_at(s);
            for v in 0..slice.violations.len() {
                total += slice.violations.value_at(v).incidents.len();
            }
        }
    }
    total
}

fn total_in_report(report: &AnalysisReport) -> usize {
    let mut total = 0;
    for r in &report.rulesets {
        for v in 0..r.violations.len() {
            total += r.violations.value_at(v).incidents.len();
        }
    }
    total
}

fn sorted(mut names: Vec<String>) -> Vec<String> {
    names.sort();
    names
}

/// A report in the shape of an analysis of several small projects: one rule
/// set, twenty locations, and two violations that each have seventeen
/// incidents in one of the build files.
fn demo_report() -> AnalysisReport {
    let pom = "file:///examples/customers-tomcat-legacy/pom.xml";
    let mut found: Vec<Incident> = Vec::new();
    let mut chained: Vec<Incident> = Vec::new();
    for line in 0..17 {
        let mut a = incident(pom, "dependency found");
        a.line_number = Some(line + 1);
        found.push(a);
        let mut b = incident(pom, "chained dependency found");
        b.line_number = Some(line + 1);
        chained.push(b);
    }
    found.push(incident("file:///examples/java/dummy/pom.xml", "dependency found"));
    found.push(incident("file:///examples/java/example/pom.xml", "dependency found"));
    found.push(incident("file:///examples/java-project/pom.xml", "dependency found"));
    found.push(incident("file:///examples/java/pom.xml", "dependency found"));
    let files = violation(
        "matched a file",
        vec![
            incident("file:///examples/golang/dummy/test_functions.go", "go file"),
            incident("file:///examples/golang/go.mod", "go module"),
            incident("file:///examples/python/file_a.py", "python file"),
            incident("file:///examples/golang/main.go", "go file"),
            incident(
                "file:///examples/java/example/src/main/java/com/example/apps/App.java",
                "java file",
            ),
            incident(
                "file:///examples/builtin/inclusion_tests/dir-0/inclusion-test.xml",
                "xml file",
            ),
            incident(
                "file:///examples/gradle-multi-project-example/template-server/src/main/java/io/jeffchao/template/server/Server.java",
                "java file",
            ),
            incident("file:///examples/yaml/k8s.yaml", "manifest"),
            incident(
                "file:///examples/inclusion-tests/src/main/java/io/konveyor/util/FileReader.java",
                "java file",
            ),
            incident("file:///examples/java/beans.xml", "xml file"),
            incident("file:///examples/gradle-multi-project-example/build.gradle", "build file"),
            incident("file:///examples/java/jboss-app.xml", "xml file"),
            incident(
                "file:///examples/java/example/src/main/java/com/example/apps/Bean.java",
                "java file",
            ),
            incident("file:///examples/customers-tomcat-legacy/Dockerfile", "container file"),
            incident(
                "file:///examples/builtin/inclusion_tests/dir-0/inclusion-test.json",
                "json file",
            ),
        ],
    );
    let mut r = ruleset(
        "konveyor-analysis",
        vec![
            ("xml-pom-001", violation("dependency", found)),
            ("chain-pom-001", violation("chained dependency", chained)),
            ("file-001", files),
        ],
    );
    r.tags = vec!["Java".to_string(), "Go".to_string()];
    r.unmatched = vec!["file-002".to_string()];
    r.errors.insert("error-rule-001".to_string(), "unable to get query info".to_string());
    let mut note = Insight::default();
    note.description = "an informational finding".to_string();
    note.incidents = vec![incident("file:///examples/java/insight-only.xml", "seen")];
    r.insights.insert("insight-001".to_string(), note);
    AnalysisReport { rulesets: vec![r] }
}

/// A report with many rule sets and 424 locations.
fn large_report() -> AnalysisReport {
    let mut rulesets: Vec<Ruleset> = Vec::new();
    for r in 0..26 {
        let mut incidents: Vec<Incident> = Vec::new();
        for l in 0..424 {
            if l % 26 == r || l % 7 == r % 7 {
                incidents.push(incident(&format!("file:///src/main/java/File{}.java", l), "use"));
            }
        }
        rulesets.push(ruleset(&format!("ruleset-{}", r), vec![("rule-001", violation("d", incidents))]));
    }
    AnalysisReport { rulesets }
}

#[test]
fn impacted_file_names() {
    let report = demo_report();
    let impacted_files = sorted(report.impacted_file_names());

    let expected_impacted_files = sorted(
        vec![
            "file:///examples/java/dummy/pom.xml",
            "file:///examples/golang/dummy/test_functions.go",
            "file:///examples/customers-tomcat-legacy/pom.xml",
            "file:///examples/java/example/pom.xml",
            "file:///examples/java-project/pom.xml",
            "file:///examples/golang/go.mod",
            "file:///examples/python/file_a.py",
            "file:///examples/golang/main.go",
            "file:///examples/java/example/src/main/java/com/example/apps/App.java",
            "file:///examples/builtin/inclusion_tests/dir-0/inclusion-test.xml",
            "file:///examples/gradle-multi-project-example/template-server/src/main/java/io/jeffchao/template/server/Server.java",
            "file:///examples/yaml/k8s.yaml",
            "file:///examples/inclusion-tests/src/main/java/io/konveyor/util/FileReader.java",
            "file:///examples/java/beans.xml",
            "file:///examples/gradle-multi-project-example/build.gradle",
            "file:///examples/java/jboss-app.xml",
            "file:///examples/java/example/src/main/java/com/example/apps/Bean.java",
            "file:///examples/customers-tomcat-legacy/Dockerfile",
            "file:///examples/java/pom.xml",
            "file:///examples/builtin/inclusion_tests/dir-0/inclusion-test.json",
        ]
        .into_iter()
        .map(|s| s.to_string())
        .collect(),
    );
    assert_eq!(impacted_files, expected_impacted_files);
}

#[test]
fn impacted_files() {
    let report = large_report();
    let impacted_files = report.impacted_files();
    assert_eq!(impacted_files.len(), 424);

    let report = demo_report();
    let impacted_files = report.impacted_files();
    assert_eq!(impacted_files.len(), 20);

    let expected_key = "file:///examples/customers-tomcat-legacy/pom.xml";
    assert!(
        impacted_files.contains_key(expected_key),
        "The key '{}' should exist in the impacted_files",
        &expected_key
    );

    let impacted_rulesets = impacted_files.get(expected_key).unwrap();
    assert_eq!(impacted_rulesets.len(), 1);

    let expected_ruleset_name = "konveyor-analysis";
    assert!(
        impacted_rulesets.contains_key(expected_ruleset_name),
        "The key '{}' should exist in the impacted_rulesets",
        &expected_ruleset_name
    );

    let ruleset = impacted_rulesets.get("konveyor-analysis").unwrap();
    assert_eq!(ruleset.violations.len(), 2);

    let violation_name = "xml-pom-001";
    let violation = ruleset.violations.get(violation_name).unwrap();
    assert_eq!(violation.incidents.len(), 17);

    let violation_name = "chain-pom-001";
    let violation = ruleset.violations.get(violation_name).unwrap();
    assert_eq!(violation.incidents.len(), 17);
}

#[test]
fn one_violation_spread_over_two_locations() {
    let v = violation(
        "dependency found",
        vec![incident(U1, "first"), incident(U1, "second"), incident(U2, "third")],
    );
    let report = AnalysisReport { rulesets: vec![ruleset("konveyor-analysis", vec![("xml-pom-001", v)])] };
    let index = report.impacted_files();
    assert_eq!(index.len(), 2);
    let at_u1 = index.get(U1).unwrap().get("konveyor-analysis").unwrap();
    let found = at_u1.violations.get("xml-pom-001").unwrap();
    assert_eq!(found.incidents.len(), 2);
    assert_eq!(messages(found), vec!["first", "second"]);
    assert_eq!(found.description, "dependency found");
    let at_u2 = index.get(U2).unwrap().get("konveyor-analysis").unwrap();
    assert_eq!(at_u2.violations.get("xml-pom-001").unwrap().incidents.len(), 1);
    assert_eq!(messages(at_u2.violations.get("xml-pom-001").unwrap()), vec!["third"]);
}

#[test]
fn two_rulesets_at_one_location_stay_apart() {
    let a = ruleset("first-set", vec![("rule-a", violation("a", vec![incident(U1, "from a")]))]);
    let b = ruleset(
        "second-set",
        vec![("rule-b", violation("b", vec![incident(U1, "from b"), incident(U1, "again")]))],
    );
    let report = AnalysisReport { rulesets: vec![a, b] };
    let index = report.impacted_files();
    assert_eq!(index.len(), 1);
    let here = index.get(U1).unwrap();
    assert_eq!(here.len(), 2);
    let first = here.get("first-set").unwrap();
    assert_eq!(first.name, "first-set");
    assert_eq!(first.violations.len(), 1);
    assert_eq!(messages(first.violations.get("rule-a").unwrap()), vec!["from a"]);
    assert!(!first.violations.contains_key("rule-b"));
    let second = here.get("second-set").unwrap();
    assert_eq!(second.violations.len(), 1);
    assert_eq!(messages(second.violations.get("rule-b").unwrap()), vec!["from b", "again"]);
}

#[test]
fn violations_without_incidents_leave_no_trace() {
    let quiet = ruleset(
        "quiet-set",
        vec![("rule-a", violation("a", vec![])), ("rule-b", violation("b", vec![]))],
    );
    let loud = ruleset(
        "loud-set",
        vec![("rule-c", violation("c", vec![])), ("rule-d", violation("d", vec![incident(U2, "m")]))],
    );
    let report = AnalysisReport { rulesets: vec![quiet, loud] };
    let index = report.impacted_files();
    assert_eq!(index.len(), 1);
    let here = index.get(U2).unwrap();
    assert_eq!(here.len(), 1);
    assert!(!here.contains_key("quiet-set"));
    let slice = here.get("loud-set").unwrap();
    assert_eq!(slice.violations.len(), 1);
    assert!(!slice.violations.contains_key("rule-c"));
}

#[test]
fn report_without_incidents_gives_empty_index() {
    let empty = AnalysisReport::default();
    assert!(empty.impacted_files().is_empty());
    assert!(empty.impacted_files_ugly().is_empty());
    assert!(empty.impacted_file_names().is_empty());
    let hollow = AnalysisReport {
        rulesets: vec![
            ruleset("no-violations", vec![]),
            ruleset("no-incidents", vec![("rule-a", violation("a", vec![]))]),
        ],
    };
    assert!(hollow.impacted_files().is_empty());
    assert_eq!(hollow.impacted_files().len(), 0);
    assert!(hollow.impacted_files_ugly().is_empty());
    assert!(hollow.impacted_file_names().is_empty());
}

#[test]
fn names_are_the_keys_of_the_index() {
    for report in [demo_report(), large_report(), AnalysisReport::default()] {
        let names = sorted(report.impacted_file_names());
        let index = report.impacted_files();
        assert_eq!(sorted(index.keys()), names);
        let mut unique = names.clone();
        unique.dedup();
        assert_eq!(unique.len(), names.len());
        for name in &names {
            assert!(index.contains_key(name));
        }
    }
}

#[test]
fn every_incident_is_found_under_its_own_location_only() {
    let report = demo_report();
    let index = report.impacted_files();
    for l in 0..index.len() {
        let loc = index.name_at(l);
        let slices = index.value_at(l);
        for s in 0..slices.len() {
            let slice = slices.value_at(s);
            assert_eq!(&slice.name, slices.name_at(s));
            assert!(!slice.violations.is_empty());
            for v in 0..slice.violations.len() {
                let held = slice.violations.value_at(v);
                assert!(!held.incidents.is_empty());
                for i in &held.incidents {
                    assert_eq!(&i.uri, loc);
                }
            }
        }
    }
    for r in &report.rulesets {
        for v in 0..r.violations.len() {
            let name = r.violations.name_at(v);
            let source = r.violations.value_at(v);
            for i in &source.incidents {
                let held = index.get(&i.uri).unwrap().get(&r.name).unwrap().violations.get(name).unwrap();
                let here = source.incidents.iter().filter(|o| o.uri == i.uri).count();
                assert_eq!(held.incidents.len(), here);
                assert!(held.incidents.iter().any(|o| o.message == i.message && o.line_number == i.line_number));
            }
        }
    }
}

#[test]
fn index_holds_as_many_incidents_as_the_report() {
    let report = demo_report();
    assert_eq!(total_in_report(&report), 17 + 4 + 17 + 15);
    assert_eq!(total_in_index(&report.impacted_files()), 53);
    assert_eq!(total_in_index(&report.impacted_files_ugly()), 53);
    let report = large_report();
    assert_eq!(total_in_index(&report.impacted_files()), total_in_report(&report));
}

#[test]
fn building_twice_gives_the_same_index() {
    let report = demo_report();
    let first = report.impacted_files();
    let second = report.impacted_files();
    assert_eq!(first.keys(), second.keys());
    for l in 0..first.len() {
        let a = first.value_at(l);
        let b = second.value_at(l);
        assert_eq!(a.keys(), b.keys());
        for s in 0..a.len() {
            let x = a.value_at(s);
            let y = b.value_at(s);
            assert_eq!(x.violations.keys(), y.violations.keys());
            for v in 0..x.violations.len() {
                assert_eq!(messages(x.violations.value_at(v)), messages(y.violations.value_at(v)));
            }
        }
    }
}

#[test]
fn both_builders_give_the_same_index() {
    for report in [demo_report(), large_report()] {
        let entry = report.impacted_files();
        let nested = report.impacted_files_ugly();
        assert_eq!(entry.keys(), nested.keys());
        for l in 0..entry.len() {
            let a = entry.value_at(l);
            let b = nested.value_at(l);
            assert_eq!(a.keys(), b.keys());
            for s in 0..a.len() {
                let x = a.value_at(s);
                let y = b.value_at(s);
                assert_eq!(x.name, y.name);
                assert_eq!(x.violations.keys(), y.violations.keys());
                for v in 0..x.violations.len() {
                    let p = x.violations.value_at(v);
                    let q = y.violations.value_at(v);
                    assert_eq!(p.description, q.description);
                    assert_eq!(messages(p), messages(q));
                }
            }
        }
    }
}

#[test]
fn a_reduced_rule_set_keeps_the_name_and_drops_the_rest() {
    let report = demo_report();
    let index = report.impacted_files();
    let slice = index.get("file:///examples/java/pom.xml").unwrap().get("konveyor-analysis").unwrap();
    assert_eq!(slice.name, "konveyor-analysis");
    assert!(slice.tags.is_empty());
    assert!(slice.insights.is_empty());
    assert!(slice.errors.is_empty());
    assert!(slice.unmatched.is_empty());
    assert_eq!(slice.violations.keys(), vec!["xml-pom-001"]);
    assert!(!index.contains_key("file:///examples/java/insight-only.xml"));
    assert_eq!(report.rulesets[0].tags.len(), 2);
    assert_eq!(report.rulesets[0].insights.len(), 1);
}

#[test]
fn a_reduced_violation_keeps_its_other_fields() {
    let mut v = violation("needs work", vec![incident(U1, "a"), incident(U2, "b"), incident(U1, "c")]);
    v.category = Some("mandatory".to_string());
    v.labels = vec!["konveyor.io/target=cloud".to_string(), "java".to_string(), "java".to_string()];
    v.effort = Some(3);
    v.incidents[0].code_snip = Some("<dependency>".to_string());
    v.incidents[0].line_number = Some(12);
    v.incidents[0].variables.insert("artifact".to_string(), serde_json::Value::from("junit"));
    v.incidents[0].variables.insert("depth".to_string(), serde_json::Value::from(2));
    let report = AnalysisReport { rulesets: vec![ruleset("rs", vec![("rule-1", v)])] };
    for index in [report.impacted_files(), report.impacted_files_ugly()] {
        let held = index.get(U1).unwrap().get("rs").unwrap().violations.get("rule-1").unwrap();
        assert_eq!(held.description, "needs work");
        assert_eq!(held.category, Some("mandatory".to_string()));
        assert_eq!(held.labels, vec!["konveyor.io/target=cloud", "java", "java"]);
        assert_eq!(held.effort, Some(3));
        assert_eq!(messages(held), vec!["a", "c"]);
        let first = &held.incidents[0];
        assert_eq!(first.uri, U1);
        assert_eq!(first.code_snip, Some("<dependency>".to_string()));
        assert_eq!(first.line_number, Some(12));
        assert_eq!(first.variables.len(), 2);
        assert_eq!(first.variables.get("artifact"), Some(&serde_json::Value::from("junit")));
        assert_eq!(first.variables.get("depth"), Some(&serde_json::Value::from(2)));
        assert_eq!(held.incidents[1].code_snip, None);
        assert!(held.incidents[1].variables.is_empty());
        let other = index.get(U2).unwrap().get("rs").unwrap().violations.get("rule-1").unwrap();
        assert_eq!(messages(other), vec!["b"]);
        assert_eq!(other.effort, Some(3));
    }
}

#[test]
fn a_later_rule_set_of_the_same_name_takes_the_slot() {
    let early = ruleset(
        "shared",
        vec![("rule-a", violation("early", vec![incident(U1, "e1"), incident(U2, "e2")]))],
    );
    let late = ruleset("shared", vec![("rule-b", violation("late", vec![incident(U1, "l1")]))]);
    let report = AnalysisReport { rulesets: vec![early, late] };
    for index in [report.impacted_files(), report.impacted_files_ugly()] {
        assert_eq!(index.len(), 2);
        let at_u1 = index.get(U1).unwrap();
        assert_eq!(at_u1.len(), 1);
        let slot = at_u1.get("shared").unwrap();
        assert_eq!(slot.violations.keys(), vec!["rule-b"]);
        assert_eq!(messages(slot.violations.get("rule-b").unwrap()), vec!["l1"]);
        let at_u2 = index.get(U2).unwrap().get("shared").unwrap();
        assert_eq!(at_u2.violations.keys(), vec!["rule-a"]);
        assert_eq!(messages(at_u2.violations.get("rule-a").unwrap()), vec!["e2"]);
    }
}

#[test]
fn incidents_without_location_are_left_out_and_reported() {
    let v = violation("v", vec![incident("", "lost"), incident(U1, "kept"), incident("", "lost too")]);
    let w = violation("w", vec![incident("", "only")]);
    let report = AnalysisReport {
        rulesets: vec![
            ruleset("clean", vec![("rule-0", violation("ok", vec![incident(U2, "fine")]))]),
            ruleset("rs", vec![("rule-1", v), ("rule-2", w)]),
        ],
    };
    for index in [report.impacted_files(), report.impacted_files_ugly()] {
        assert_eq!(sorted(index.keys()), vec![U2, U1]);
        assert!(!index.contains_key(""));
        let held = index.get(U1).unwrap().get("rs").unwrap();
        assert_eq!(held.violations.keys(), vec!["rule-1"]);
        assert_eq!(messages(held.violations.get("rule-1").unwrap()), vec!["kept"]);
    }
    assert_eq!(sorted(report.impacted_file_names()), vec![U2, U1]);
    let found = report.malformed_incidents();
    let places: Vec<(usize, String, usize)> =
        found.iter().map(|p| (p.ruleset, p.violation.clone(), p.incident)).collect();
    assert_eq!(
        places,
        vec![(1, "rule-1".to_string(), 0), (1, "rule-1".to_string(), 2), (1, "rule-2".to_string(), 0)]
    );
    assert!(demo_report().malformed_incidents().is_empty());
}

#[test]
fn a_report_over_the_ceiling_is_refused() {
    let report = demo_report();
    assert!(!report.exceeds(53));
    assert!(report.exceeds(52));
    assert!(report.exceeds(0));
    assert!(!report.exceeds(usize::MAX));
    assert!(!AnalysisReport::default().exceeds(0));
    match report.impacted_files_within(53) {
        Ok(index) => assert_eq!(index.len(), 20),
        Err(_) => panic!("a report at the ceiling is indexed"),
    }
    match report.impacted_files_within(52) {
        Ok(_) => panic!("a report over the ceiling is refused"),
        Err(e) => assert_eq!(e, IndexError::OversizedInput { ceiling: 52 }),
    }
}

#[test]
fn locations_under_a_prefix_are_filtered_out() {
    let v = violation("v", vec![incident(U3, "cached"), incident(U1, "own"), incident(U2, "own")]);
    let report = AnalysisReport { rulesets: vec![ruleset("rs", vec![("rule-1", v)])] };
    let index = report.impacted_files();
    assert_eq!(index.len(), 3);
    assert_eq!(names_outside(&index, "file:///root/.m2"), vec![U1, U2]);
    assert_eq!(names_outside(&index, "file:///examples/java/pom.xml"), vec![U3, U2]);
    assert_eq!(names_outside(&index, "file:///examples/java/pom.xml.orig"), vec![U3, U1, U2]);
    assert_eq!(names_outside(&index, "").len(), 0);
    assert_eq!(names_outside(&index, "xyz").len(), 3);
}

#[test]
fn locations_come_in_order_of_first_occurrence() {
    let a = ruleset("a", vec![("r1", violation("v", vec![incident(U2, "1"), incident(U1, "2")]))]);
    let b = ruleset("b", vec![("r2", violation("v", vec![incident(U3, "3"), incident(U2, "4")]))]);
    let report = AnalysisReport { rulesets: vec![a, b] };
    assert_eq!(report.impacted_file_names(), vec![U2, U1, U3]);
    assert_eq!(report.impacted_files().keys(), vec![U2, U1, U3]);
}

#[test]
fn copies_are_equal_field_by_field() {
    let mut i = incident(U1, "m");
    i.code_snip = Some("snip".to_string());
    i.line_number = Some(7);
    i.variables.insert("k".to_string(), serde_json::Value::from(true));
    let j = i.clone();
    assert_eq!(j.uri, U1);
    assert_eq!(j.message, "m");
    assert_eq!(j.code_snip, Some("snip".to_string()));
    assert_eq!(j.line_number, Some(7));
    assert_eq!(j.variables, i.variables);
    let mut v = violation("d", vec![i, incident(U2, "n")]);
    v.labels = vec!["l1".to_string(), "l2".to_string()];
    v.category = Some("c".to_string());
    v.effort = Some(5);
    let w = v.clone();
    assert_eq!(w.description, "d");
    assert_eq!(w.labels, vec!["l1", "l2"]);
    assert_eq!(w.category, Some("c".to_string()));
    assert_eq!(w.effort, Some(5));
    assert_eq!(messages(&w), vec!["m", "n"]);
    let s = v.stripped();
    assert_eq!(s.description, "d");
    assert_eq!(s.labels, vec!["l1", "l2"]);
    assert_eq!(s.effort, Some(5));
    assert!(s.incidents.is_empty());
    assert_eq!(v.incidents.len(), 2);
}

#[test]
fn defaults_are_empty() {
    let i = Incident::default();
    assert_eq!(i.uri, "");
    assert_eq!(i.message, "");
    assert_eq!(i.code_snip, None);
    assert_eq!(i.line_number, None);
    assert!(i.variables.is_empty());
    let v = Violation::default();
    assert_eq!(v.description, "");
    assert_eq!(v.category, None);
    assert!(v.labels.is_empty() && v.incidents.is_empty());
    assert_eq!(v.effort, None);
    let n = Insight::default();
    assert_eq!(n.description, "");
    assert!(n.labels.is_empty() && n.incidents.is_empty());
    let r = Ruleset::default();
    assert_eq!(r.name, "");
    assert!(r.tags.is_empty() && r.unmatched.is_empty());
    assert!(r.violations.is_empty() && r.insights.is_empty() && r.errors.is_empty());
    assert!(AnalysisReport::default().rulesets.is_empty());
    let s = demo_report().rulesets[0].stripped();
    assert_eq!(s.name, "konveyor-analysis");
    assert!(s.tags.is_empty() && s.violations.is_empty() && s.errors.is_empty());
}

#[test]
fn strict_mode_refuses_rule_sets_that_clash() {
    let early = ruleset(
        "shared",
        vec![("rule-a", violation("early", vec![incident(U2, "e2"), incident(U1, "e1")]))],
    );
    let other = ruleset("other", vec![("rule-a", violation("other", vec![incident(U1, "o1")]))]);
    let late = ruleset(
        "shared",
        vec![("rule-b", violation("late", vec![incident(U3, "l3"), incident(U1, "l1")]))],
    );
    let report = AnalysisReport { rulesets: vec![early, other, late] };
    match report.impacted_files_strict() {
        Ok(_) => panic!("two rule sets of one name at one location are refused"),
        Err(e) => assert_eq!(
            e,
            IndexError::AmbiguousRuleSetName { name: "shared".to_string(), location: U1.to_string() }
        ),
    }
    assert_eq!(report.impacted_files().len(), 3);
}

#[test]
fn strict_mode_accepts_a_shared_name_at_different_locations() {
    let early = ruleset("shared", vec![("rule-a", violation("early", vec![incident(U1, "e1")]))]);
    let late = ruleset("shared", vec![("rule-a", violation("late", vec![incident(U2, "l2")]))]);
    let report = AnalysisReport { rulesets: vec![early, late] };
    let index = match report.impacted_files_strict() {
        Ok(index) => index,
        Err(e) => panic!("nothing clashes: {:?}", e),
    };
    assert_eq!(index.keys(), vec![U1, U2]);
    assert_eq!(total_in_index(&index), 2);
    assert_eq!(messages(index.get(U2).unwrap().get("shared").unwrap().violations.get("rule-a").unwrap()), vec!["l2"]);
    match demo_report().impacted_files_strict() {
        Ok(index) => assert_eq!(index.len(), 20),
        Err(e) => panic!("nothing clashes: {:?}", e),
    }
    assert!(AnalysisReport::default().impacted_files_strict().is_ok());
}
