use std::collections::BTreeMap;

use apiary::home::{plan_systemd, UnitFile};
use apiary::monitors::{connector_name, identity, text_less, upsert_by_key};

fn unit(name: &str, content: Option<&str>) -> UnitFile {
    UnitFile { name: name.to_string(), content: content.map(|c| c.as_bytes().to_vec()) }
}

fn sorted(mut v: Vec<String>) -> Vec<String> {
    v.sort();
    v
}

#[test]
fn identity_joins_with_unit_separator() {
    assert_eq!(
        identity(&Some("Dell".into()), &None, &Some("X1".into())),
        "Dell\u{1f}\u{1f}X1"
    );
    assert_eq!(identity(&None, &None, &None), "\u{1f}\u{1f}");
}

#[test]
fn connector_names() {
    assert_eq!(connector_name("card1-DP-2"), "DP-2");
    assert_eq!(connector_name("card0-eDP-1"), "eDP-1");
    assert_eq!(connector_name("card12-HDMI-A-1"), "HDMI-A-1");
    assert_eq!(connector_name("renderD128"), "renderD128");
    assert_eq!(connector_name("card1"), "");
}

#[test]
fn text_order_is_code_point_order() {
    assert!(text_less("a", "b"));
    assert!(!text_less("ab", "a"));
    assert!(text_less("", "a"));
    assert!(!text_less("a", "a"));
    assert!(!text_less("é", "z"));
    assert!(text_less("Z", "a"));
}

#[test]
fn upsert_keeps_last_value_in_key_order() {
    let out = upsert_by_key(vec![
        ("b".to_string(), 1),
        ("a".to_string(), 2),
        ("b".to_string(), 3),
    ]);
    assert_eq!(out, vec![("a".to_string(), 2), ("b".to_string(), 3)]);
}

#[test]
fn upsert_agrees_with_btreemap() {
    let keys = ["m", "é", "a", "\u{1f}x", "m", "Zed", "", "a", "ü\u{1f}"];
    let entries: Vec<(String, usize)> = keys.iter().enumerate().map(|(i, k)| (k.to_string(), i)).collect();
    let mut map = BTreeMap::new();
    for (k, v) in entries.clone() {
        map.insert(k, v);
    }
    let expected: Vec<(String, usize)> = map.into_iter().collect();
    assert_eq!(upsert_by_key(entries), expected);
}

#[test]
fn record_is_append_only() {
    // Prior record: monitors A and B; connected now: B (refreshed) and C.
    let prior = vec![("A".to_string(), "old A"), ("B".to_string(), "old B")];
    let now = vec![("B".to_string(), "new B"), ("C".to_string(), "new C")];
    let mut all = prior.clone();
    all.extend(now);
    assert_eq!(
        upsert_by_key(all),
        vec![
            ("A".to_string(), "old A"),
            ("B".to_string(), "new B"),
            ("C".to_string(), "new C"),
        ]
    );
}

#[test]
fn plan_systemd_stops_and_starts() {
    let old = vec![
        unit("a.service", Some("x")),
        unit("b.service", Some("y")),
        unit("c.timer", Some("z")),
        unit("d.socket", None),
        unit("f.service", Some("gone")),
    ];
    let new = vec![
        unit("a.service", Some("x")),
        unit("b.service", Some("y2")),
        unit("c.timer", Some("z2")),
        unit("d.socket", Some("q")),
        unit("e.service", Some("w")),
        unit("g.timer", Some("t")),
    ];
    let plan = plan_systemd(&old, &new);
    assert_eq!(
        sorted(plan.stop),
        vec!["b.service", "c.timer", "d.socket", "f.service"]
    );
    assert_eq!(sorted(plan.start), vec!["b.service", "d.socket", "e.service"]);
}

#[test]
fn plan_systemd_same_generation_is_noop() {
    let units = vec![unit("a.service", Some("x")), unit("b.socket", None)];
    let plan = plan_systemd(&units, &units);
    assert!(plan.stop.is_empty());
    assert!(plan.start.is_empty());
}

#[test]
fn plan_systemd_first_generation_starts_services() {
    let new = vec![unit("a.service", Some("x")), unit("b.path", Some("y"))];
    let plan = plan_systemd(&vec![], &new);
    assert!(plan.stop.is_empty());
    assert_eq!(plan.start, vec!["a.service"]);
}
