//! Configured targets: lookup, comparison, content bytes and the map of outputs.

use razel_analysis::content::encode_providers;
use razel_analysis::decl::{ActionTemplate, ProviderId, ProviderInstance};
use razel_analysis::error::Error;
use razel_analysis::key::ConfiguredTargetKey;
use razel_analysis::node::{NodeValue, ValuePolicy};
use razel_analysis::target::{merge_dep_output, merge_dependency, ConfiguredTarget, DepOutput};
use razel_analysis::value::BzlValue;

fn ckey(name: &str) -> ConfiguredTargetKey {
    ConfiguredTargetKey {
        package: "p".to_string(),
        name: name.to_string(),
        configuration: None,
        exec_platform: None,
        rule_transition: None,
    }
}

fn output(path: &str, name: &str, action_index: u32) -> DepOutput {
    DepOutput { exec_path: path.to_string(), producer_ct: ckey(name), action_index }
}

fn info(bzl: Option<&str>, name: &str) -> ProviderInstance {
    ProviderInstance {
        provider: ProviderId { bzl: bzl.map(|b| b.to_string()), name: name.to_string() },
        fields: vec![("f".to_string(), BzlValue::Bool(true))],
    }
}

fn action(outputs: &[&str]) -> ActionTemplate {
    ActionTemplate {
        mnemonic: "M".to_string(),
        argv: vec!["a".to_string()],
        inputs: vec![],
        outputs: outputs.iter().map(|o| o.to_string()).collect(),
        env: vec![("k".to_string(), "v".to_string())],
    }
}

fn target() -> ConfiguredTarget {
    ConfiguredTarget {
        providers: vec![info(None, "A"), info(Some("x.bzl"), "A")],
        actions: vec![action(&["o"])],
        dep_outputs: vec![output("d", "q", 258)],
        visibility: vec!["v".to_string()],
    }
}

fn none() -> ConfiguredTarget {
    ConfiguredTarget { providers: vec![], actions: vec![], dep_outputs: vec![], visibility: vec![] }
}

#[test]
fn providers_are_found_by_identity() {
    let t = target();
    assert_eq!(t.provider(&ProviderId::from_name("A")), Some(&info(None, "A")));
    let other = ProviderId { bzl: Some("x.bzl".to_string()), name: "A".to_string() };
    assert_eq!(t.provider(&other), Some(&info(Some("x.bzl"), "A")));
    assert_eq!(t.provider(&ProviderId { bzl: Some("y.bzl".to_string()), name: "A".to_string() }), None);
    assert_eq!(t.provider(&ProviderId::from_name("B")), None);
}

#[test]
fn targets_are_compared_in_every_part() {
    let t = target();
    assert!(t.value_eq(&NodeValue::Target(target())));
    assert!(!t.value_eq(&NodeValue::Other));
    assert!(!t.value_eq(&NodeValue::Target(none())));
    let mut changed = target();
    changed.visibility.push("w".to_string());
    assert!(!t.value_eq(&NodeValue::Target(changed)));
    let mut changed = target();
    changed.dep_outputs[0].action_index = 1;
    assert!(!t.value_eq(&NodeValue::Target(changed)));
    let mut changed = target();
    changed.actions[0].env[0].1 = "w".to_string();
    assert!(!t.value_eq(&NodeValue::Target(changed)));
    let mut changed = target();
    changed.providers[1].fields[0].1 = BzlValue::Bool(false);
    assert!(!t.value_eq(&NodeValue::Target(changed)));
    assert_eq!(
        t.policy(),
        ValuePolicy { comparable: true, always_dirty: false, shareable: true, serializable: true, process_local: false }
    );
}

#[test]
fn content_bytes_are_counted_lists() {
    assert_eq!(none().content_bytes(&vec![]), vec![0; 32]);
    assert_eq!(encode_providers(&vec![vec![7, 8], vec![9]]), vec![0, 0, 0, 0, 0, 0, 0, 2, 7, 8, 9]);
    let mut expected: Vec<u8> = vec![];
    let count = |b: &mut Vec<u8>, n: u8| b.extend_from_slice(&[0, 0, 0, 0, 0, 0, 0, n]);
    let text = |b: &mut Vec<u8>, t: &str| {
        b.extend_from_slice(&[0, 0, 0, t.len() as u8]);
        b.extend_from_slice(t.as_bytes());
    };
    count(&mut expected, 1);
    expected.extend_from_slice(&[7, 8]);
    count(&mut expected, 1);
    text(&mut expected, "M");
    count(&mut expected, 1);
    text(&mut expected, "a");
    count(&mut expected, 0);
    count(&mut expected, 1);
    text(&mut expected, "o");
    count(&mut expected, 1);
    text(&mut expected, "k");
    text(&mut expected, "v");
    count(&mut expected, 1);
    text(&mut expected, "d");
    let producer = ckey("q").encode();
    count(&mut expected, producer.len() as u8);
    expected.extend_from_slice(&producer);
    expected.extend_from_slice(&[0, 0, 1, 2]);
    count(&mut expected, 1);
    text(&mut expected, "v");
    assert_eq!(target().content_bytes(&vec![vec![7, 8]]), expected);
}

#[test]
fn contents_differ_where_targets_differ() {
    let encoded = vec![vec![1]];
    let mut moved = target();
    moved.actions[0].inputs = moved.actions[0].outputs.clone();
    moved.actions[0].outputs = vec![];
    assert_ne!(moved.content_bytes(&encoded), target().content_bytes(&encoded));
    let mut edited = target();
    edited.dep_outputs[0].action_index = 1;
    assert_ne!(edited.content_bytes(&encoded), target().content_bytes(&encoded));
    let mut edited = target();
    edited.visibility = vec![];
    assert_ne!(edited.content_bytes(&encoded), target().content_bytes(&encoded));
}

#[test]
fn outputs_are_merged_without_loss() {
    let owner = ckey("t");
    let mut map = vec![];
    assert_eq!(merge_dep_output(&mut map, output("a", "x", 0), &owner), Ok(()));
    assert_eq!(merge_dep_output(&mut map, output("b", "x", 0), &owner), Ok(()));
    assert_eq!(merge_dep_output(&mut map, output("a", "x", 0), &owner), Ok(()));
    assert_eq!(map, vec![output("a", "x", 0), output("b", "x", 0)]);
    let conflict = Err(Error::Conflict {
        what: "duplicate dep output".to_string(),
        detail: "//p:t: dep output 'a' is produced by two distinct dependencies".to_string(),
    });
    assert_eq!(merge_dep_output(&mut map, output("a", "y", 0), &owner), conflict);
    assert_eq!(merge_dep_output(&mut map, output("a", "x", 1), &owner), conflict);
    assert_eq!(map.len(), 2);
}

#[test]
fn forwarded_outputs_are_those_of_a_direct_edge() {
    let mut t = none();
    t.actions = vec![action(&["a", "b"]), action(&["c"])];
    t.dep_outputs = vec![output("d", "deep", 3)];
    let mut direct = vec![];
    merge_dependency(&mut direct, &ckey("x"), &t, &ckey("t")).unwrap();
    assert_eq!(direct, vec![output("a", "x", 0), output("b", "x", 0), output("c", "x", 1), output("d", "deep", 3)]);
    let mut forwarder = none();
    merge_dependency(&mut forwarder.dep_outputs, &ckey("x"), &t, &ckey("alias")).unwrap();
    let mut through = vec![];
    merge_dependency(&mut through, &ckey("alias"), &forwarder, &ckey("t")).unwrap();
    assert_eq!(through, direct);
}
