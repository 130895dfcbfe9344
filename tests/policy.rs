use electrolysis::policy::{alternation_of, Config, ConfigData, ConfigError};

fn strings(v: &[&str]) -> Vec<String> {
    v.iter().map(|s| s.to_string()).collect()
}

fn data() -> ConfigData {
    ConfigData { ignore: None, fail: None, replace: Vec::new(), targets: None }
}

#[test]
fn alternation_is_anchored() {
    assert_eq!(alternation_of(&strings(&["a", "b.*"])), "^(a|b.*)$");
    assert_eq!(alternation_of(&strings(&[])), "^()$");
}

#[test]
fn ignore_list_matches_whole_names() {
    let mut d = data();
    d.ignore = Some(strings(&["mymod\\..*"]));
    let c = Config::new(d).ok().unwrap();
    assert!(c.is_ignored("mymod.foo"));
    assert!(!c.is_ignored("x.mymod.foo"));
    assert!(!c.is_failed("mymod.foo"));
}

#[test]
fn absent_lists_match_nothing() {
    let c = Config::new(data()).ok().unwrap();
    assert!(!c.is_ignored("NOPE"));
    assert!(!c.is_failed("NOPE"));
    assert!(!c.is_ignored(""));
    assert!(!c.strict());
}

#[test]
fn entries_act_as_patterns() {
    let mut d = data();
    d.fail = Some(strings(&["a.c", "core"]));
    let c = Config::new(d).ok().unwrap();
    assert!(c.is_failed("abc"));
    assert!(c.is_failed("a.c"));
    assert!(c.is_failed("core"));
    assert!(!c.is_failed("core.x"));
}

#[test]
fn invalid_patterns_are_reported() {
    let mut d = data();
    d.ignore = Some(strings(&["foo("]));
    assert!(matches!(Config::new(d), Err(ConfigError::InvalidIgnore(p)) if p == "^(foo()$"));
    let mut d = data();
    d.fail = Some(strings(&["[x"]));
    assert!(matches!(Config::new(d), Err(ConfigError::InvalidFail(p)) if p == "^([x)$"));
}

#[test]
fn replacements_are_looked_up_literally() {
    let mut d = data();
    d.replace = vec![("a.b".to_string(), "def a.b := 1".to_string())];
    d.targets = Some(Vec::new());
    let c = Config::new(d).ok().unwrap();
    assert_eq!(c.replacement_for(&"a.b".to_string()), Some("def a.b := 1".to_string()));
    assert_eq!(c.replacement_for(&"a.c".to_string()), None);
    assert_eq!(c.replacement_for(&"axb".to_string()), None);
    assert!(c.strict());
}
