use navpath::db::TeleportRequirement;
use navpath::requirements::{CallerValue, Num, RequirementEvaluator, RequirementKV};

/// An integer that compares as the number does.
fn key(n: f64) -> Num {
    if n.is_nan() {
        return Num::Nan;
    }
    let bits = n.to_bits() as i64;
    Num::Key(if bits < 0 { -(bits & i64::MAX) } else { bits })
}

fn spelt(s: &str) -> Option<Num> {
    let t = s.trim();
    if t.is_empty() {
        return None;
    }
    t.parse::<f64>().ok().map(key)
}

fn number(k: &str, n: i64) -> RequirementKV {
    RequirementKV {
        key: k.to_string(),
        value: CallerValue { number: Some(key(n as f64)), text: Some(format!("{}", n)) },
    }
}

fn text(k: &str, s: &str) -> RequirementKV {
    RequirementKV { key: k.to_string(), value: CallerValue { number: spelt(s), text: Some(s.to_string()) } }
}

fn flag(k: &str, b: bool) -> RequirementKV {
    RequirementKV { key: k.to_string(), value: CallerValue { number: None, text: Some(format!("{}", b)) } }
}

fn neither(k: &str) -> RequirementKV {
    RequirementKV { key: k.to_string(), value: CallerValue { number: None, text: None } }
}

fn requirement(k: Option<&str>, val: Option<&str>, op: Option<&str>) -> TeleportRequirement {
    TeleportRequirement {
        id: 0,
        meta_info: None,
        key: k.map(|s| s.to_string()),
        value: val.map(|s| s.to_string()),
        comparison: op.map(|s| s.to_string()),
        number: val.and_then(spelt),
    }
}

fn tr(k: &str, val: &str, op: &str) -> TeleportRequirement {
    requirement(Some(k), Some(val), Some(op))
}

#[test]
fn eq_and_neq_numeric_and_string() {
    let ev = RequirementEvaluator::new(vec![number("level", 50), text("quest", "done"), flag("token", true)]);
    assert!(ev.satisfies_all(&[tr("level", "50", "==")]));
    assert!(ev.satisfies_all(&[tr("level", "50", "=")]));
    assert!(!ev.satisfies_all(&[tr("level", "40", "==")]));
    assert!(ev.satisfies_all(&[tr("quest", "done", "==")]));
    assert!(ev.satisfies_all(&[tr("quest", "not", "!=")]));
    assert!(ev.satisfies_all(&[tr("token", "true", "==")]));
    assert!(ev.satisfies_all(&[tr("token", "false", "!=")]));
}

#[test]
fn relational_numeric_only() {
    let ev = RequirementEvaluator::new(vec![number("level", 50), text("strnum", "5"), text("quest", "done")]);
    assert!(ev.satisfies_all(&[tr("level", "10", ">=")]));
    assert!(ev.satisfies_all(&[tr("level", "49", ">")]));
    assert!(!ev.satisfies_all(&[tr("level", "50", ">")]));
    assert!(ev.satisfies_all(&[tr("level", "50", ">=")]));
    assert!(ev.satisfies_all(&[tr("level", "50", "<=")]));
    assert!(ev.satisfies_all(&[tr("strnum", "4", ">=")]));
    assert!(!ev.satisfies_all(&[tr("quest", "1", ">")]));
}

#[test]
fn missing_key_or_bad_operator_or_missing_fields() {
    let ev = RequirementEvaluator::new(vec![number("level", 10)]);
    assert!(!ev.satisfies_all(&[tr("rank", "1", ">=")]));
    assert!(!ev.satisfies_all(&[tr("level", "10", "??")]));
    assert!(!ev.satisfies_all(&[requirement(None, Some("10"), Some(">"))]));
    assert!(!ev.satisfies_all(&[requirement(Some("level"), None, Some(">"))]));
    assert!(!ev.satisfies_all(&[requirement(Some("level"), Some("1"), None)]));
    assert!(!ev.satisfies_all(&[requirement(Some(""), Some("1"), Some(">"))]));
}

#[test]
fn duplicate_keys_last_wins_and_trim_handling() {
    let ev = RequirementEvaluator::new(vec![text("skill", "10"), text("skill", "12")]);
    assert!(ev.satisfies_all(&[tr("skill", " 12 ", "  >=  ")]));
}

#[test]
fn non_scalar_values_unsatisfied() {
    let ev = RequirementEvaluator::new(vec![neither("flags"), neither("meta")]);
    assert!(!ev.satisfies_all(&[tr("flags", "1", "==")]));
    assert!(!ev.satisfies_all(&[tr("meta", "{\"a\":1}", "==")]));
    assert!(!ev.satisfies_all(&[tr("flags", "1", ">=")]));
}

#[test]
fn numbers_compare_as_numbers_and_what_is_none_with_nothing() {
    let nan = RequirementKV {
        key: "x".to_string(),
        value: CallerValue { number: Some(Num::Nan), text: Some("NaN".to_string()) },
    };
    let ev = RequirementEvaluator::new(vec![text("a", "-1.5"), text("zero", "-0"), nan]);
    assert!(ev.satisfies_all(&[tr("a", "-2", ">"), tr("a", "0", "<"), tr("a", "-1.50", "==")]));
    assert!(ev.satisfies_all(&[tr("zero", "0", "==")]));
    assert!(!ev.satisfies_all(&[tr("x", "1", "==")]));
    assert!(ev.satisfies_all(&[tr("x", "1", "!=")]));
    assert!(!ev.satisfies_all(&[tr("x", "1", "<=")]));
    assert!(ev.satisfies_all(&[]));
}
