use electrolysis::deps::DefId;
use electrolysis::engine::{Action, CrateTranspiler, EXCLUDED};
use electrolysis::policy::{Config, ConfigData};

fn id(index: u32) -> DefId {
    DefId { krate: 0, index }
}

fn path(name: &str) -> Vec<String> {
    name.split('.').map(|s| s.to_string()).collect()
}

fn engine(ignore: &[&str], fail: &[&str], replace: &[(&str, &str)], strict: bool) -> CrateTranspiler {
    let list = |v: &[&str]| if v.is_empty() { None } else { Some(v.iter().map(|s| s.to_string()).collect()) };
    let data = ConfigData {
        ignore: list(ignore),
        fail: list(fail),
        replace: replace.iter().map(|(a, b)| (a.to_string(), b.to_string())).collect(),
        targets: if strict { Some(vec!["root".to_string()]) } else { None },
    };
    CrateTranspiler::new(Config::new(data).ok().unwrap())
}

fn outcome(e: CrateTranspiler, d: DefId) -> Option<Result<Option<String>, String>> {
    let (results, _) = e.destruct();
    results.into_iter().rev().find(|r| r.0 == d).map(|r| r.1)
}

#[test]
fn ignored_name_is_skipped_without_translation() {
    let mut e = engine(&["mymod\\..*"], &[], &[], false);
    let a = e.transpile(id(1), &[id(1)], &path("mymod.foo"));
    assert!(matches!(a, Action::Done));
    assert!(e.next_item().is_none());
    assert_eq!(e.tally(), (1, 0));
    assert_eq!(outcome(e, id(1)), Some(Ok(None)));
}

#[test]
fn failed_name_gets_the_policy_message() {
    let mut e = engine(&[], &["bad"], &[], true);
    assert!(matches!(e.transpile(id(1), &[id(1)], &path("bad")), Action::Done));
    assert!(e.next_item().is_none());
    assert_eq!(e.tally(), (0, 1));
    assert_eq!(EXCLUDED, "excluded by policy");
    assert_eq!(outcome(e, id(1)), Some(Err(EXCLUDED.to_string())));
}

#[test]
fn ignore_wins_over_fail_and_replace() {
    let mut e = engine(&["x"], &["x"], &[("x", "t")], false);
    e.transpile(id(1), &[id(1)], &path("x"));
    assert_eq!(outcome(e, id(1)), Some(Ok(None)));
}

#[test]
fn replacement_is_taken_literally() {
    let mut e = engine(&[], &[], &[("a.b", "def a.b := 1")], false);
    match e.transpile(id(1), &[id(1)], &path("a.b")) {
        Action::Replaced(n) => assert_eq!(n, "a.b"),
        _ => panic!("replacement expected"),
    }
    assert_eq!(e.next_item(), Some(id(1)));
    assert!(matches!(e.transpile(id(1), &[id(1)], &path("a.b")), Action::Done));
    assert!(e.next_item().is_none());
    assert_eq!(outcome(e, id(1)), Some(Ok(Some("def a.b := 1".to_string()))));
}

#[test]
fn outside_filter_needs_nothing() {
    let mut e = engine(&[], &[], &[], false);
    assert!(matches!(e.transpile(id(1), &[id(2)], &path("a")), Action::Done));
    assert!(e.next_item().is_none());
    assert_eq!(outcome(e, id(1)), None);
}

#[test]
fn translation_is_asked_once_and_recorded() {
    let mut e = engine(&[], &[], &[], false);
    let filter = [id(1)];
    match e.transpile(id(1), &filter, &path("std.option.Option")) {
        Action::Translate(n) => assert_eq!(n, "std.option.Option"),
        _ => panic!("translation expected"),
    }
    assert!(matches!(e.transpile(id(2), &filter, &path("b")), Action::Busy));
    assert_eq!(e.finish(Ok(Some("def x".to_string()))), Ok(()));
    assert_eq!(e.finish(Ok(None)), Ok(()));
    assert_eq!(e.next_item(), Some(id(1)));
    assert!(matches!(e.transpile(id(1), &filter, &path("std.option.Option")), Action::Done));
    assert!(matches!(e.transpile(id(1), &filter, &path("std.option.Option")), Action::Done));
    assert_eq!(e.tally(), (1, 0));
    assert_eq!(outcome(e, id(1)), Some(Ok(Some("def x".to_string()))));
}

#[test]
fn dependencies_are_translated_depth_first() {
    let mut e = engine(&[], &[], &[], false);
    let filter = [id(1), id(2), id(3), id(4)];
    let mut order = Vec::new();
    let mut next = Some(id(1));
    while let Some(d) = next {
        if let Action::Translate(_) = e.transpile(d, &filter, &path(&format!("n{}", d.index))) {
            order.push(d.index);
            match d.index {
                1 => {
                    e.add_dep(id(2), id(1), "");
                    e.add_dep(id(3), id(1), "");
                }
                2 => e.add_dep(id(4), id(2), ""),
                _ => e.add_dep(id(1), d, ""),
            }
            assert_eq!(e.finish(Ok(None)), Ok(()));
        }
        next = e.next_item();
    }
    assert_eq!(order, vec![1, 2, 4, 3]);
    assert_eq!(e.tally(), (4, 0));
}

#[test]
fn best_effort_records_failures() {
    let mut e = engine(&[], &[], &[], false);
    assert!(matches!(e.transpile(id(1), &[id(1)], &path("a")), Action::Translate(_)));
    assert_eq!(e.finish(Err("boom".to_string())), Ok(()));
    assert_eq!(e.tally(), (0, 1));
    assert_eq!(outcome(e, id(1)), Some(Err("boom".to_string())));
}

#[test]
fn strict_mode_aborts_without_recording() {
    let mut e = engine(&["skip"], &[], &[], true);
    e.transpile(id(9), &[id(9), id(1)], &path("skip"));
    assert!(matches!(e.transpile(id(1), &[id(9), id(1)], &path("root")), Action::Translate(_)));
    assert_eq!(e.finish(Err("boom".to_string())), Err("boom".to_string()));
    let (results, _) = e.destruct();
    assert_eq!(results.len(), 1);
    assert_eq!(results[0].0, id(9));
}

#[test]
fn foreign_definitions_get_no_node() {
    let mut e = engine(&[], &[], &[], false);
    assert!(matches!(e.transpile(id(1), &[id(1)], &path("a")), Action::Translate(_)));
    e.add_dep(DefId { krate: 3, index: 7 }, id(1), "core");
    e.add_dep(DefId { krate: 3, index: 8 }, id(1), "core");
    e.add_dep(DefId { krate: 4, index: 1 }, id(1), "alloc");
    let (_, deps) = e.destruct();
    assert_eq!(deps.node_count(), 1);
    assert_eq!(deps.edge_count(), 0);
    let mut crates = deps.crate_deps().clone();
    crates.sort();
    assert_eq!(crates, vec!["alloc".to_string(), "core".to_string()]);
}

#[test]
fn self_use_is_recursive() {
    let mut e = engine(&[], &[], &[], false);
    assert!(matches!(e.transpile(id(1), &[id(1)], &path("f")), Action::Translate(_)));
    e.add_dep(id(2), id(1), "");
    assert!(!e.is_recursive(id(1)));
    e.add_dep(id(1), id(1), "");
    e.add_dep(id(1), id(1), "");
    assert!(e.is_recursive(id(1)));
    assert!(!e.is_recursive(id(2)));
    assert!(!e.is_recursive(id(5)));
    let (_, deps) = e.destruct();
    assert_eq!(deps.edge_count(), 3);
}

#[test]
fn foreign_use_needs_no_room_check() {
    let mut e = engine(&[], &[], &[], false);
    assert!(e.has_room());
    assert!(!e.strict());
    e.add_dep(DefId { krate: 2, index: 1 }, id(1), "std");
    assert!(e.next_item().is_none());
    let (_, deps) = e.destruct();
    assert_eq!(deps.node_count(), 0);
    assert_eq!(deps.crate_deps().clone(), vec!["std".to_string()]);
}

#[test]
fn single_names_are_mangled() {
    let e = engine(&[], &[], &[], false);
    assert_eq!(e.mk_lean_name("end"), "«end»");
    assert_eq!(e.mk_lean_name("a::b"), "«a.b»");
}
