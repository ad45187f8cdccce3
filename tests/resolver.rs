use std::cmp::Ordering;

use depsat::closure::{build_closure, node_of, resolve_root, Package, Pkg, ResolveError};
use depsat::cnf::{cnf_text, encode, encode_text, push_decimal};
use depsat::solve::{interpret, resolve, Verdict};
use depsat::stmt::{dep_to_stmt, parse_depends};
use depsat::version::{compare_versions, Version};

fn rec(name: &str, version: &str, depends: Option<&str>) -> Package {
    Package {
        package: name.to_string(),
        version: version.to_string(),
        depends: depends.map(|d| d.to_string()),
    }
}

fn triple(name: &str, op: &str, version: &str) -> (String, String, String) {
    (name.to_string(), op.to_string(), version.to_string())
}

fn stmt_triple(s: &str) -> (String, String, String) {
    let d = dep_to_stmt(s);
    (d.0, d.1, d.2)
}

fn names(nodes: &[Pkg]) -> Vec<(String, String)> {
    nodes.iter().map(|n| (n.name.clone(), n.version.clone())).collect()
}

#[test]
fn version_numeric_runs() {
    assert_eq!(compare_versions("1.2", "1.10"), Ordering::Less);
    assert_eq!(compare_versions("1.10", "1.2"), Ordering::Greater);
    assert_eq!(compare_versions("1.0", "1.00"), Ordering::Equal);
    assert_eq!(compare_versions("007", "7"), Ordering::Equal);
    assert_eq!(compare_versions("99999999999999999999999", "100000000000000000000000"), Ordering::Less);
}

#[test]
fn version_tilde_and_letters() {
    assert_eq!(compare_versions("1.0~rc1", "1.0"), Ordering::Less);
    assert_eq!(compare_versions("1.0~~", "1.0~"), Ordering::Less);
    assert_eq!(compare_versions("1.0", "1.0a"), Ordering::Less);
    assert_eq!(compare_versions("1.0a", "1.0+"), Ordering::Less);
    assert_eq!(compare_versions("1.0a", "1.0b"), Ordering::Less);
}

#[test]
fn version_epoch_and_revision() {
    assert_eq!(compare_versions("1:0.1", "2.0"), Ordering::Greater);
    assert_eq!(compare_versions("0:2.0", "2.0"), Ordering::Equal);
    assert_eq!(compare_versions("2.0-1", "2.0-2"), Ordering::Less);
    assert_eq!(compare_versions("2.0-10", "2.0-9"), Ordering::Greater);
    assert_eq!(compare_versions("2.0", "2.0-0"), Ordering::Equal);
    assert_eq!(compare_versions("1.0-2-3", "1.0-2-2"), Ordering::Greater);
}

#[test]
fn version_parse_parts() {
    let v = Version::parse("3:1.2-rc-4");
    assert_eq!(v.epoch, vec!['3']);
    assert_eq!(v.upstream.iter().collect::<String>(), "1.2-rc");
    assert_eq!(v.revision, vec!['4']);
    let w = Version::parse("1.2");
    assert!(w.epoch.is_empty());
    assert!(w.revision.is_empty());
    assert_eq!(v.compare(&w), Ordering::Greater);
}

#[test]
fn version_order_is_total_and_transitive() {
    let vs = ["1.0~rc1", "1.0", "1.0-1", "1.0a", "1:0.5", "2.0", "1.00"];
    for a in vs {
        for b in vs {
            let ab = compare_versions(a, b);
            assert_eq!(ab.reverse(), compare_versions(b, a));
            for c in vs {
                if ab == Ordering::Less && compare_versions(b, c) == Ordering::Less {
                    assert_eq!(compare_versions(a, c), Ordering::Less);
                }
            }
        }
    }
}

#[test]
fn lex_constraint_with_operator() {
    assert_eq!(stmt_triple("foo (>= 1.2)"), triple("foo", ">=", "1.2"));
    assert_eq!(stmt_triple("libc6 (<< 2.38-1)"), triple("libc6", "<<", "2.38-1"));
    assert_eq!(stmt_triple("bar (= 1:2.0)"), triple("bar", "=", "1:2.0"));
}

#[test]
fn lex_constraint_without_operator() {
    assert_eq!(stmt_triple("bar"), triple("bar", "", ""));
    assert_eq!(stmt_triple(""), triple("", "", ""));
}

#[test]
fn lex_malformed_token_best_effort() {
    assert_eq!(stmt_triple("foo >=1.2"), triple("foo", ">=", "1.2"));
    assert_eq!(stmt_triple("foo (1.2)"), triple("foo1.2", "", ""));
    assert_eq!(stmt_triple("a | b (>= 1)"), triple("a|b", ">=", "1"));
    assert_eq!(stmt_triple("x (>= 1 <= 2)"), triple("x", ">=<=", "12"));
}

#[test]
fn lex_round_trip() {
    for (n, o, v) in [("foo", ">=", "1.2"), ("libbar-dev", "<<", "2:3.0~b1"), ("baz", "", "")] {
        let text = format!("{} ({} {})", n, o, v);
        assert_eq!(stmt_triple(&text), triple(n, o, v));
    }
}

#[test]
fn stmt_text_form() {
    assert_eq!(dep_to_stmt("foo (>= 1.2)").to_text(), "foo >= 1.2");
    assert!(dep_to_stmt("a (= 1)").same_as(&dep_to_stmt("a(=1)")));
    assert!(!dep_to_stmt("a (= 1)").same_as(&dep_to_stmt("a (= 2)")));
}

#[test]
fn depends_field_split() {
    let ds = parse_depends("a, b (<< 2), , c (>= 1.0)");
    let got: Vec<_> = ds.into_iter().map(|d| (d.0, d.1, d.2)).collect();
    assert_eq!(
        got,
        vec![triple("a", "", ""), triple("b", "<<", "2"), triple("c", ">=", "1.0")]
    );
    assert!(parse_depends("").is_empty());
    let alts: Vec<_> = parse_depends("x (>= 1) | y, z").into_iter().map(|d| (d.0, d.1, d.2)).collect();
    assert_eq!(alts, vec![triple("x", ">=", "1"), triple("z", "", "")]);
    let alts: Vec<_> = parse_depends("| y, a|b, c (<< 2)|d").into_iter().map(|d| (d.0, d.1, d.2)).collect();
    assert_eq!(alts, vec![triple("a", "", ""), triple("c", "<<", "2")]);
    assert_eq!(parse_depends("x,y").len(), 1);
}

#[test]
fn node_of_absent_depends() {
    let n = node_of(&rec("a", "1", None));
    assert_eq!(n.name, "a");
    assert!(n.deps.is_empty());
}

#[test]
fn node_of_keeps_first_alternative() {
    let n = node_of(&rec("p", "1", Some("x (>= 1) | y, z")));
    let got: Vec<_> = n.deps.into_iter().map(|d| (d.0, d.1, d.2)).collect();
    assert_eq!(got, vec![triple("x", ">=", "1"), triple("z", "", "")]);
}

#[test]
fn closure_order_is_work_list_order() {
    let index = vec![
        rec("R", "1", Some("B, A")),
        rec("A", "1", Some("C")),
        rec("B", "1", Some("D")),
        rec("C", "1", None),
        rec("D", "1", None),
    ];
    let first = build_closure(&index, node_of(&index[0]));
    let second = build_closure(&index, node_of(&index[0]));
    let order: Vec<String> = first.iter().map(|n| n.name.clone()).collect();
    assert_eq!(order, vec!["R", "B", "A", "D", "C"]);
    assert_eq!(names(&first), names(&second));
}

#[test]
fn root_newest_version() {
    let index = vec![rec("a", "1.0", None), rec("a", "1.10", None), rec("a", "1.9", None), rec("b", "9", None)];
    let root = resolve_root(&index, &"a".to_string(), None).unwrap();
    assert_eq!(root.version, "1.10");
}

#[test]
fn root_ties_take_last() {
    let index = vec![rec("a", "1.0", Some("x")), rec("a", "1.00", Some("y"))];
    let root = resolve_root(&index, &"a".to_string(), None).unwrap();
    assert_eq!(root.version, "1.00");
}

#[test]
fn root_exact_version() {
    let index = vec![rec("a", "2.0", None), rec("a", "1.0", Some("b"))];
    let root = resolve_root(&index, &"a".to_string(), Some(&"1.0".to_string())).unwrap();
    assert_eq!(root.version, "1.0");
    assert_eq!(root.deps.len(), 1);
}

#[test]
fn root_errors() {
    let index = vec![rec("a", "2.0", None)];
    assert_eq!(resolve_root(&index, &"z".to_string(), None).unwrap_err(), ResolveError::PackageNotFound);
    assert_eq!(
        resolve_root(&index, &"z".to_string(), Some(&"1".to_string())).unwrap_err(),
        ResolveError::PackageNotFound
    );
    assert_eq!(
        resolve_root(&index, &"a".to_string(), Some(&"1.0".to_string())).unwrap_err(),
        ResolveError::PackageVersionNotFound
    );
}

#[test]
fn closure_with_cycle() {
    let index = vec![rec("A", "1", Some("B")), rec("B", "1", Some("A"))];
    let root = node_of(&index[0]);
    let nodes = build_closure(&index, root);
    assert_eq!(names(&nodes), vec![("A".to_string(), "1".to_string()), ("B".to_string(), "1".to_string())]);
}

#[test]
fn closure_names_once() {
    let index = vec![
        rec("A", "1", Some("B, C (>= 1)")),
        rec("B", "2", Some("C, A")),
        rec("B", "1", Some("D")),
        rec("C", "1", Some("B (<< 2)")),
        rec("D", "1", None),
        rec("E", "1", None),
    ];
    let nodes = build_closure(&index, node_of(&index[0]));
    let got = names(&nodes);
    assert_eq!(
        got,
        vec![
            ("A".to_string(), "1".to_string()),
            ("B".to_string(), "2".to_string()),
            ("C".to_string(), "1".to_string())
        ]
    );
    for i in 0..got.len() {
        for j in i + 1..got.len() {
            assert_ne!(got[i].0, got[j].0);
        }
    }
}

#[test]
fn closure_missing_target() {
    let index = vec![rec("A", "1", Some("ghost (>= 1)"))];
    let nodes = build_closure(&index, node_of(&index[0]));
    assert_eq!(nodes.len(), 1);
}

fn scenario_index() -> Vec<Package> {
    vec![rec("A", "1.0", Some("B (>= 2.0)")), rec("B", "2.0", Some("")), rec("B", "1.0", Some(""))]
}

#[test]
fn encode_scenario_text() {
    let index = scenario_index();
    let nodes = build_closure(&index, node_of(&index[0]));
    let enc = encode(&nodes);
    let vars: Vec<_> = enc.vars.iter().map(|d| (d.0.clone(), d.1.clone(), d.2.clone())).collect();
    assert_eq!(vars, vec![triple("A", "=", "1.0"), triple("B", ">=", "2.0"), triple("B", "=", "2.0")]);
    assert_eq!(enc.clauses, vec![(1, 2)]);
    assert_eq!(enc.to_dimacs(), "p cnf 3 1\n-1 2 0\n");
}

#[test]
fn encode_counts_and_shared_vars() {
    let index = vec![
        rec("A", "1", Some("B (>= 1), C")),
        rec("B", "1", Some("C")),
        rec("C", "1", Some("B (>= 1)")),
    ];
    let nodes = build_closure(&index, node_of(&index[0]));
    let enc = encode(&nodes);
    assert_eq!(enc.vars.len(), 5);
    assert_eq!(enc.clauses.len(), 4);
    assert_eq!(enc.clauses, vec![(1, 2), (1, 3), (4, 3), (5, 2)]);
    assert_eq!(
        enc.to_dimacs(),
        "p cnf 5 4\n-1 2 0\n-1 3 0\n-4 3 0\n-5 2 0\n"
    );
}

#[test]
fn installed_fact_shares_with_equal_constraint() {
    let index = vec![rec("A", "1", Some("B (= 2)")), rec("B", "2", None)];
    let nodes = build_closure(&index, node_of(&index[0]));
    let enc = encode(&nodes);
    assert_eq!(enc.vars.len(), 2);
    assert_eq!(enc.to_dimacs(), "p cnf 2 1\n-1 2 0\n");
}

#[test]
fn encode_is_deterministic() {
    let index = scenario_index();
    let nodes = build_closure(&index, node_of(&index[0]));
    assert_eq!(encode_text(&nodes), encode_text(&nodes));
    let again = build_closure(&index, node_of(&index[0]));
    assert_eq!(encode_text(&nodes), encode_text(&again));
}

#[test]
fn dimacs_multi_digit() {
    assert_eq!(cnf_text(12, &vec![(10, 123)]), "p cnf 12 1\n-10 123 0\n");
    let mut s = String::from("x");
    push_decimal(&mut s, 0);
    push_decimal(&mut s, 1907);
    assert_eq!(s, "x01907");
}

#[test]
fn resolve_scenario() {
    let index = scenario_index();
    let report = resolve(&index, &"A".to_string(), None).unwrap();
    assert_eq!(names(&report.nodes), vec![("A".to_string(), "1.0".to_string()), ("B".to_string(), "2.0".to_string())]);
    assert_eq!(report.cnf, "p cnf 3 1\n-1 2 0\n");
    match report.verdict {
        Verdict::Resolved(set) => {
            for p in &set {
                assert!(names(&report.nodes).contains(p));
            }
            let a = ("A".to_string(), "1.0".to_string());
            let b = ("B".to_string(), "2.0".to_string());
            assert!(!set.contains(&a) || set.contains(&b));
        }
        Verdict::Inconsistent => panic!("the formula is satisfiable"),
    }
}

#[test]
fn resolve_missing_target_is_still_satisfiable() {
    let index = vec![rec("A", "1", Some("nowhere (>= 3)"))];
    let report = resolve(&index, &"A".to_string(), None).unwrap();
    assert_eq!(report.cnf, "p cnf 2 1\n-1 2 0\n");
    assert!(matches!(report.verdict, Verdict::Resolved(_)));
}

#[test]
fn resolve_errors() {
    let index = scenario_index();
    assert!(matches!(resolve(&index, &"Z".to_string(), None), Err(ResolveError::PackageNotFound)));
    assert!(matches!(
        resolve(&index, &"B".to_string(), Some(&"3.0".to_string())),
        Err(ResolveError::PackageVersionNotFound)
    ));
}

#[test]
fn interpret_reads_installed_vars() {
    let index = scenario_index();
    let nodes = build_closure(&index, node_of(&index[0]));
    let enc = encode(&nodes);
    let set = interpret(&nodes, &enc.vars, &vec![1, 2, 3]);
    assert_eq!(set, vec![("A".to_string(), "1.0".to_string()), ("B".to_string(), "2.0".to_string())]);
    let set = interpret(&nodes, &enc.vars, &vec![-1, 2, 3]);
    assert_eq!(set, vec![("B".to_string(), "2.0".to_string())]);
    let set = interpret(&nodes, &enc.vars, &vec![-1, -2, -3]);
    assert!(set.is_empty());
}
