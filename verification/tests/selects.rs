//! Selectable attributes.

use razel_analysis::branch::{concat_resolved, most_specific, resolve_branch, resolve_select_attr};
use razel_analysis::configurable::{condition_labels, has_select, resolve_target_selects, SelectResolution};
use razel_analysis::decl::{ProviderId, ProviderInstance, TargetDecl};
use razel_analysis::error::Error;
use razel_analysis::key::{ConfiguredTargetKey, NodeKey};
use razel_analysis::node::{missing_keys, Demand, NodeValue};
use razel_analysis::order::sort_texts;
use razel_analysis::select::{
    attr_str_dict, attr_str_list, compute_config_match, read_config_match, SelectConfig, CONDITIONS_DEFAULT,
    CONFIG_MATCH_INFO,
};
use razel_analysis::string_map::StringMap;
use razel_analysis::target::ConfiguredTarget;
use razel_analysis::value::{BzlValue, SelectArm};

fn s(x: &str) -> BzlValue {
    BzlValue::Str(x.into())
}

fn list(xs: &[&str]) -> BzlValue {
    BzlValue::List(xs.iter().map(|x| s(x)).collect())
}

fn dict(xs: &[(&str, &str)]) -> BzlValue {
    BzlValue::Dict(xs.iter().map(|(k, v)| (s(k), s(v))).collect())
}

fn texts(xs: &[&str]) -> Vec<String> {
    xs.iter().map(|x| x.to_string()).collect()
}

fn ckey(name: &str, cfg: Option<&str>) -> ConfiguredTargetKey {
    ConfiguredTargetKey {
        package: "p".into(),
        name: name.into(),
        configuration: cfg.map(|c| c.into()),
        exec_platform: None,
        rule_transition: None,
    }
}

fn cs_target(name: &str, constraint_values: &[&str], values: &[(&str, &str)]) -> TargetDecl {
    let mut attrs = Vec::new();
    if !constraint_values.is_empty() {
        attrs.push(("constraint_values".into(), list(constraint_values)));
    }
    if !values.is_empty() {
        attrs.push(("values".into(), dict(values)));
    }
    TargetDecl { kind: "config_setting".into(), name: name.into(), attrs, origin: None }
}

/// The host config: aarch64+osx constraints, cpu=darwin_arm64, compilation_mode=fastbuild.
fn host() -> SelectConfig {
    let mut platforms = StringMap::new();
    platforms.insert("host".into(), vec!["@platforms//cpu:aarch64".to_string(), "@platforms//os:osx".to_string()]);
    let mut host_values = StringMap::new();
    host_values.insert("cpu".to_string(), "darwin_arm64".to_string());
    host_values.insert("compilation_mode".to_string(), "fastbuild".to_string());
    let mut values = StringMap::new();
    values.insert("host".to_string(), host_values);
    SelectConfig { platforms, values }
}

fn matched(m: &ConfiguredTarget) -> bool {
    read_config_match(m).unwrap().0
}

/// Build a matches map from (label, matched, specificity-settings) triples.
fn mk_matches(entries: &[(&str, bool, &[&str])]) -> StringMap<(bool, Vec<String>)> {
    let mut m = StringMap::new();
    for (l, b, set) in entries {
        m.insert((*l).to_string(), (*b, texts(set)));
    }
    m
}

fn branch(conditions: &[(&str, BzlValue)], no_match_error: &str) -> SelectArm {
    SelectArm::Branch {
        conditions: conditions.iter().map(|(l, v)| (l.to_string(), v.clone())).collect(),
        no_match_error: no_match_error.to_string(),
    }
}

fn select_error(detail: &str) -> Error {
    Error::Invalid { what: "select".to_string(), detail: detail.to_string() }
}

#[test]
fn config_setting_matches_by_constraints_and_values() {
    let sc = host();
    let darwin = compute_config_match(&ckey("darwin", Some("host")), &cs_target("darwin", &["@platforms//cpu:aarch64", "@platforms//os:osx"], &[]), &sc).unwrap();
    assert!(matched(&darwin), "aarch64+osx ⊆ host → match");
    let linux = compute_config_match(&ckey("linux", Some("host")), &cs_target("linux", &["@platforms//os:linux"], &[]), &sc).unwrap();
    assert!(!matched(&linux), "a linux config_setting must NOT match a darwin host");
    // values: cpu matches, then a wrong cpu no-matches.
    let cpu_ok = compute_config_match(&ckey("cpu", Some("host")), &cs_target("cpu", &[], &[("cpu", "darwin_arm64")]), &sc).unwrap();
    assert!(matched(&cpu_ok), "values cpu=darwin_arm64 matches the host");
    let cpu_no = compute_config_match(&ckey("cpu2", Some("host")), &cs_target("cpu2", &[], &[("cpu", "k8")]), &sc).unwrap();
    assert!(!matched(&cpu_no), "values cpu=k8 does not match a darwin host");
}

#[test]
fn config_setting_fail_closed_surfaces() {
    let sc = host();
    assert!(
        matches!(compute_config_match(&ckey("u", Some("host")), &cs_target("u", &[], &[("apple_platform_type", "macos")]), &sc), Err(Error::Unsupported { .. })),
        "an unknown values key (TF's apple_platform_type) is a typed error"
    );
    let dv = TargetDecl {
        kind: "config_setting".into(),
        name: "d".into(),
        attrs: vec![("define_values".into(), BzlValue::Dict(vec![(s("framework_shared_object"), s("true"))]))],
        origin: None,
    };
    assert!(
        matches!(compute_config_match(&ckey("d", Some("host")), &dv, &sc), Err(Error::Unsupported { .. })),
        "define_values fails closed on use (razel does not evaluate --define in v1)"
    );
}

#[test]
fn select_resolves_to_matching_branch() {
    let arms = vec![SelectArm::Branch {
        conditions: vec![
            (":darwin".into(), list(&["//dep:darwin"])),
            (":linux".into(), list(&["//dep:linux"])),
            (CONDITIONS_DEFAULT.into(), list(&["//dep:default"])),
        ],
        no_match_error: String::new(),
    }];
    let matches = mk_matches(&[(":linux", false, &["@platforms//os:linux"]), (":darwin", true, &["@platforms//cpu:aarch64"])]);
    let resolved = resolve_select_attr(&arms, &matches, "//p:t").unwrap();
    assert_eq!(resolved, list(&["//dep:darwin"]), "resolves to the MATCHING (darwin) branch, not first-entry / default");
}

#[test]
fn select_falls_to_default_when_no_match() {
    let arms = vec![SelectArm::Branch {
        conditions: vec![(":linux".into(), list(&["//dep:linux"])), (CONDITIONS_DEFAULT.into(), list(&["//dep:default"]))],
        no_match_error: String::new(),
    }];
    let matches = mk_matches(&[(":linux", false, &["@platforms//os:linux"])]);
    assert_eq!(resolve_select_attr(&arms, &matches, "//p:t").unwrap(), list(&["//dep:default"]), "no real match → default");
}

#[test]
fn select_most_specific_wins() {
    let arms = vec![SelectArm::Branch {
        conditions: vec![(":osx".into(), list(&["//dep:osx"])), (":osx_arm".into(), list(&["//dep:osx_arm"]))],
        no_match_error: String::new(),
    }];
    let matches = mk_matches(&[
        (":osx", true, &["@platforms//os:osx"]),
        (":osx_arm", true, &["@platforms//os:osx", "@platforms//cpu:aarch64"]),
    ]);
    assert_eq!(resolve_select_attr(&arms, &matches, "//p:t").unwrap(), list(&["//dep:osx_arm"]), "the more-specific (superset) condition wins");
}

#[test]
fn select_fail_closed_ambiguous_and_no_match() {
    // ambiguous: both match, neither specializes the other.
    let ambiguous = vec![SelectArm::Branch {
        conditions: vec![(":a".into(), list(&["//a"])), (":b".into(), list(&["//b"]))],
        no_match_error: String::new(),
    }];
    let both = mk_matches(&[(":a", true, &["@platforms//os:osx"]), (":b", true, &["@platforms//cpu:aarch64"])]);
    assert!(
        matches!(resolve_select_attr(&ambiguous, &both, "//p:t"), Err(Error::Invalid { .. })),
        "two incomparable matches are an ambiguous typed error"
    );
    // no match + no default → typed error naming the conditions.
    let no_default = vec![SelectArm::Branch { conditions: vec![(":a".into(), list(&["//a"]))], no_match_error: String::new() }];
    let none = mk_matches(&[(":a", false, &[])]);
    let err = resolve_select_attr(&no_default, &none, "//p:t").unwrap_err();
    assert!(matches!(err, Error::Invalid { .. }), "no match + no default is a typed error");
    if let Error::Invalid { detail, .. } = err {
        assert!(detail.contains("//p:t") && detail.contains(":a"), "the no-match error names the target + conditions: {detail}");
    }
}

#[test]
fn select_concatenates_list_arms() {
    let arms = vec![
        SelectArm::Concrete(list(&["//base"])),
        SelectArm::Branch { conditions: vec![(":a".into(), list(&["//a"])), (CONDITIONS_DEFAULT.into(), list(&[]))], no_match_error: String::new() },
    ];
    let matches = mk_matches(&[(":a", true, &["@platforms//os:osx"])]);
    assert_eq!(resolve_select_attr(&arms, &matches, "//p:t").unwrap(), list(&["//base", "//a"]), "concat: base ++ matched branch");
}

#[test]
fn a_match_is_published_with_sorted_settings() {
    let mut target = cs_target(
        "m",
        &["@platforms//os:osx", "@platforms//cpu:aarch64"],
        &[("cpu", "darwin_arm64"), ("compilation_mode", "fastbuild")],
    );
    target.attrs.push(("visibility".to_string(), list(&["//visibility:public"])));
    let ct = compute_config_match(&ckey("m", Some("host")), &target, &host()).unwrap();
    let settings = texts(&[
        "@platforms//cpu:aarch64",
        "@platforms//os:osx",
        "values:compilation_mode=fastbuild",
        "values:cpu=darwin_arm64",
    ]);
    assert_eq!(read_config_match(&ct), Some((true, settings.clone())));
    assert_eq!(
        ct,
        ConfiguredTarget {
            providers: vec![ProviderInstance {
                provider: ProviderId { bzl: None, name: "ConfigMatchInfo".to_string() },
                fields: vec![
                    ("matched".to_string(), BzlValue::Bool(true)),
                    ("settings".to_string(), BzlValue::List(settings.into_iter().map(BzlValue::Str).collect())),
                ],
            }],
            actions: vec![],
            dep_outputs: vec![],
            visibility: texts(&["//visibility:public"]),
        }
    );
}

#[test]
fn texts_are_sorted_by_character() {
    assert_eq!(
        sort_texts(&texts(&["b", "a", "ab", "", "é", "z", "a", "Z"])),
        texts(&["", "Z", "a", "a", "ab", "b", "z", "é"])
    );
}

#[test]
fn config_settings_need_a_configuration() {
    let sc = host();
    assert_eq!(
        compute_config_match(&ckey("x", None), &cs_target("x", &["c"], &[]), &sc),
        Err(Error::Unsupported {
            what: "config_setting resolution",
            detail: "//p:x has constraint_values/values but the target has no configuration to resolve against".to_string(),
        })
    );
    // Without conditions there is nothing to resolve.
    let empty = compute_config_match(&ckey("x", None), &cs_target("x", &[], &[]), &sc).unwrap();
    assert_eq!(read_config_match(&empty), Some((true, vec![])));
    // A configuration that is not known among others has no constraints and no values.
    let other = compute_config_match(&ckey("x", Some("other")), &cs_target("x", &["c"], &[]), &sc).unwrap();
    assert_eq!(read_config_match(&other), Some((false, texts(&["c"]))));
    // Without any configuration there is nothing to match against.
    let refused = |r: Result<ConfiguredTarget, Error>| {
        assert!(matches!(r, Err(Error::Unsupported { what: "config_setting resolution", .. })));
    };
    refused(compute_config_match(&ckey("x", Some("host")), &cs_target("x", &[], &[("cpu", "k")]), &SelectConfig::default()));
    refused(compute_config_match(&ckey("l", Some("host")), &cs_target("l", &["@platforms//os:linux"], &[]), &SelectConfig::default()));
    let empty = compute_config_match(&ckey("x", Some("host")), &cs_target("x", &[], &[]), &SelectConfig::default()).unwrap();
    assert_eq!(read_config_match(&empty), Some((true, vec![])));
    // One map is enough for configurations to be there.
    let mut platforms = StringMap::new();
    platforms.insert("bare".to_string(), vec![]);
    let mut values = StringMap::new();
    values.insert("plain".to_string(), StringMap::new());
    let sc = SelectConfig { platforms, values: StringMap::new() };
    let bare = compute_config_match(&ckey("x", Some("bare")), &cs_target("x", &[], &[("cpu", "k")]), &sc).unwrap();
    assert_eq!(read_config_match(&bare), Some((false, texts(&["values:cpu=k"]))));
    let sc = SelectConfig { platforms: StringMap::new(), values };
    let plain = compute_config_match(&ckey("x", Some("plain")), &cs_target("x", &["c"], &[]), &sc).unwrap();
    assert_eq!(read_config_match(&plain), Some((false, texts(&["c"]))));
}

#[test]
fn only_lists_of_strings_are_read() {
    let target = |v: BzlValue| TargetDecl {
        kind: "config_setting".to_string(),
        name: "c".to_string(),
        attrs: vec![("constraint_values".to_string(), v)],
        origin: None,
    };
    let read = |v: BzlValue| attr_str_list(&target(v), "constraint_values");
    assert_eq!(read(list(&["a", "b"])), texts(&["a", "b"]));
    assert_eq!(read(BzlValue::List(vec![s("a"), BzlValue::Bool(true)])), Vec::<String>::new());
    assert_eq!(read(BzlValue::List(vec![])), Vec::<String>::new());
    assert_eq!(read(s("a")), Vec::<String>::new());
    assert_eq!(attr_str_list(&target(list(&["a"])), "other"), Vec::<String>::new());
    let pairs = BzlValue::Dict(vec![(s("k"), s("v")), (s("l"), BzlValue::Bool(true))]);
    assert_eq!(attr_str_dict(&target(pairs), "constraint_values"), vec![("k".to_string(), "v".to_string())]);
}

#[test]
fn the_most_specific_entry_is_unique() {
    let (a, b, c) = ("a".to_string(), "b".to_string(), "c".to_string());
    let (one, two, three) = (s("1"), s("2"), s("3"));
    let (x, xx, xy, y) = (texts(&["x"]), texts(&["x", "x"]), texts(&["y", "x", "y"]), texts(&["y"]));
    assert_eq!(most_specific(&vec![]), None);
    assert_eq!(most_specific(&vec![(&a, &one, &vec![])]), Some(&one));
    assert_eq!(most_specific(&vec![(&a, &one, &x), (&b, &two, &xy), (&c, &three, &y)]), Some(&two));
    assert_eq!(most_specific(&vec![(&c, &three, &y), (&a, &one, &x), (&a, &two, &xy)]), Some(&two));
    assert_eq!(most_specific(&vec![(&a, &one, &x), (&c, &three, &y)]), None);
    assert_eq!(most_specific(&vec![(&a, &one, &x), (&b, &two, &xx)]), None);
}

#[test]
fn config_setting_failures_in_full() {
    let sc = host();
    assert_eq!(
        compute_config_match(&ckey("u", Some("host")), &cs_target("u", &[], &[("cpu", "x"), ("define", "y"), ("other", "z")]), &sc),
        Err(Error::Unsupported {
            what: "config_setting values key",
            detail: "//p:u: unsupported values key 'define' (v1 supports [\"cpu\", \"compilation_mode\"]; an unknown key fails closed)".to_string(),
        })
    );
    let mut flags = cs_target("f", &[], &[("define", "y")]);
    flags.attrs.push(("flag_values".to_string(), dict(&[(":flag", "on")])));
    assert_eq!(
        compute_config_match(&ckey("f", None), &flags, &sc),
        Err(Error::Unsupported {
            what: "config_setting define_values/flag_values",
            detail: "//p:f uses define_values/flag_values, which razel does not evaluate in v1 (accepted-fail-closed-on-use)".to_string(),
        })
    );
    // An empty dictionary, or one without pairs of strings, is no use.
    let mut empty = cs_target("e", &[], &[]);
    empty.attrs.push(("flag_values".to_string(), BzlValue::Dict(vec![(s("k"), BzlValue::Bool(true))])));
    assert!(compute_config_match(&ckey("e", None), &empty, &sc).is_ok());
}

#[test]
fn only_match_providers_of_the_right_form_are_read() {
    let target = |providers: Vec<ProviderInstance>| ConfiguredTarget {
        providers,
        actions: vec![],
        dep_outputs: vec![],
        visibility: vec![],
    };
    let info = |bzl: Option<&str>, fields: Vec<(&str, BzlValue)>| ProviderInstance {
        provider: ProviderId { bzl: bzl.map(|b| b.to_string()), name: CONFIG_MATCH_INFO.to_string() },
        fields: fields.into_iter().map(|(n, v)| (n.to_string(), v)).collect(),
    };
    assert_eq!(read_config_match(&target(vec![])), None);
    let full = vec![("settings", list(&["a"])), ("matched", BzlValue::Bool(false))];
    assert_eq!(read_config_match(&target(vec![info(None, full.clone())])), Some((false, texts(&["a"]))));
    assert_eq!(read_config_match(&target(vec![info(Some("x.bzl"), full)])), None);
    assert_eq!(read_config_match(&target(vec![info(None, vec![("matched", BzlValue::Bool(true))])])), None);
    assert_eq!(
        read_config_match(&target(vec![info(None, vec![("matched", s("true")), ("settings", list(&[]))])])),
        None
    );
    let mixed = BzlValue::List(vec![s("a"), BzlValue::Bool(true), s("b")]);
    assert_eq!(
        read_config_match(&target(vec![info(None, vec![("matched", BzlValue::Bool(true)), ("settings", mixed)])])),
        Some((true, texts(&["a", "b"])))
    );
}

#[test]
fn no_match_and_ambiguity_in_full() {
    let none = mk_matches(&[(":a", false, &[])]);
    let conditions = |xs: &[(&str, &str)]| -> Vec<(String, BzlValue)> {
        xs.iter().map(|(l, v)| (l.to_string(), s(v))).collect()
    };
    assert_eq!(
        resolve_branch(&conditions(&[(":a", "x"), (":\"b\"", "y")]), "", &none, "//p:t"),
        Err(select_error(
            "configurable attribute of '//p:t' has no matching condition and no //conditions:default (conditions: [\":a\", \":\\\"b\\\"\"])"
        ))
    );
    assert_eq!(
        resolve_branch(&conditions(&[(":a", "x")]), "only for a", &none, "//p:t"),
        Err(select_error("only for a"))
    );
    assert_eq!(
        resolve_branch(&conditions(&[]), "", &none, "//p:t"),
        Err(select_error(
            "configurable attribute of '//p:t' has no matching condition and no //conditions:default (conditions: [])"
        ))
    );
    let both = mk_matches(&[(":a", true, &["x"]), (":b", true, &["y"]), (":c", false, &["x", "y"])]);
    assert_eq!(
        resolve_branch(&conditions(&[(":a", "x"), (":c", "z"), (":b", "y"), (CONDITIONS_DEFAULT, "d")]), "", &both, "//p:t"),
        Err(select_error(
            "configurable attribute of '//p:t' matches multiple conditions with no most-specific resolution (ambiguous): [\":a\", \":b\"]"
        ))
    );
    // Equal sets are not more specific than each other, however often a setting is written.
    let equal = mk_matches(&[(":a", true, &["x", "x"]), (":b", true, &["x"])]);
    assert!(resolve_branch(&conditions(&[(":a", "x"), (":b", "y")]), "", &equal, "//p:t").is_err());
    // A condition that stands twice is not more specific than itself.
    assert!(resolve_branch(&conditions(&[(":a", "x"), (":a", "x")]), "", &both, "//p:t").is_err());
}

#[test]
fn most_specific_of_three_wins_in_any_order() {
    let m = mk_matches(&[(":1", true, &["x"]), (":2", true, &["y", "x"]), (":3", true, &["z", "y", "x"])]);
    for order in [[":1", ":2", ":3"], [":3", ":1", ":2"], [":2", ":3", ":1"]] {
        let conditions: Vec<(String, BzlValue)> = order.iter().map(|l| (l.to_string(), s(l))).collect();
        assert_eq!(resolve_branch(&conditions, "", &m, "//p:t"), Ok(s(":3")));
    }
}

#[test]
fn arms_are_joined() {
    assert_eq!(concat_resolved(vec![], "//p:t"), Ok(BzlValue::List(vec![])));
    assert_eq!(concat_resolved(vec![s("x")], "//p:t"), Ok(s("x")));
    assert_eq!(concat_resolved(vec![list(&["a"]), list(&[]), list(&["b", "a"])], "//p:t"), Ok(list(&["a", "b", "a"])));
    assert_eq!(
        concat_resolved(vec![dict(&[("a", "1"), ("b", "2")]), dict(&[("a", "3"), ("c", "4")])], "//p:t"),
        Ok(dict(&[("b", "2"), ("a", "3"), ("c", "4")]))
    );
    let refused = Err(select_error("configurable attribute of '//p:t' concatenates non-list/non-dict select arms (not joinable)"));
    assert_eq!(concat_resolved(vec![s("x"), s("y")], "//p:t"), refused);
    assert_eq!(concat_resolved(vec![list(&["x"]), dict(&[])], "//p:t"), refused);
}

#[test]
fn arms_fail_at_the_first() {
    let m = mk_matches(&[]);
    let arms = [branch(&[(":a", s("x"))], "first"), branch(&[(":a", s("x"))], "second")];
    assert_eq!(resolve_select_attr(&arms, &m, "//p:t"), Err(select_error("first")));
}

fn configurable() -> TargetDecl {
    TargetDecl {
        kind: "lib".to_string(),
        name: "t".to_string(),
        attrs: vec![
            ("name".to_string(), s("t")),
            (
                "deps".to_string(),
                BzlValue::Select(vec![
                    SelectArm::Concrete(list(&["//base"])),
                    branch(&[(":a", list(&["//a"])), (":b", list(&["//b"])), (CONDITIONS_DEFAULT, list(&[]))], ""),
                ]),
            ),
            ("srcs".to_string(), BzlValue::Select(vec![branch(&[(":b", list(&["b.c"])), (":c", list(&["c.c"]))], "")])),
        ],
        origin: None,
    }
}

fn setting(b: bool, settings: &[&str]) -> Demand {
    Demand::Ready(NodeValue::Target(ConfiguredTarget {
        providers: vec![ProviderInstance {
            provider: ProviderId::from_name(CONFIG_MATCH_INFO),
            fields: vec![("matched".to_string(), BzlValue::Bool(b)), ("settings".to_string(), list(settings))],
        }],
        actions: vec![],
        dep_outputs: vec![],
        visibility: vec![],
    }))
}

fn nodes(names: &[&str]) -> Vec<NodeKey> {
    names.iter().map(|n| NodeKey::from_key(&ckey(n, None))).collect()
}

#[test]
fn conditions_are_gathered_once() {
    let target = configurable();
    assert!(has_select(&target.attrs));
    assert_eq!(condition_labels(&target.attrs), texts(&[":a", ":b", ":c"]));
    let plain = vec![("name".to_string(), s("t"))];
    assert!(!has_select(&plain));
    assert_eq!(condition_labels(&plain), Vec::<String>::new());
}

#[test]
fn targets_are_resolved_by_their_conditions() {
    let labels = texts(&[":a", ":b", ":c"]);
    let keys = nodes(&["a", "b", "c"]);
    let ready = resolve_target_selects(
        &ckey("t", None),
        configurable(),
        &labels,
        &keys,
        &vec![setting(false, &[]), setting(true, &["x"]), setting(false, &[])],
    );
    match ready {
        SelectResolution::Ready(t) => {
            assert_eq!(
                t.attrs,
                vec![
                    ("name".to_string(), s("t")),
                    ("deps".to_string(), list(&["//base", "//b"])),
                    ("srcs".to_string(), list(&["b.c"])),
                ]
            );
            assert_eq!((t.kind, t.name, t.origin), ("lib".to_string(), "t".to_string(), None));
        }
        _ => panic!("resolved"),
    }
}

#[test]
fn unbuilt_conditions_are_waited_for() {
    let labels = texts(&[":a", ":b", ":c"]);
    let keys = nodes(&["a", "b", "c"]);
    let demands = vec![Demand::Missing, setting(true, &["x"]), Demand::Missing];
    assert_eq!(missing_keys(&keys, &demands), nodes(&["a", "c"]));
    match resolve_target_selects(&ckey("t", None), configurable(), &labels, &keys, &demands) {
        SelectResolution::Missing(missing) => assert_eq!(missing, nodes(&["a", "c"])),
        _ => panic!("missing"),
    }
}

#[test]
fn conditions_have_to_be_config_settings() {
    let labels = texts(&[":a", ":b", ":c"]);
    let keys = nodes(&["a", "b", "c"]);
    let plain = || {
        Demand::Ready(NodeValue::Target(ConfiguredTarget {
            providers: vec![],
            actions: vec![],
            dep_outputs: vec![],
            visibility: vec![],
        }))
    };
    let error = |demands: Vec<Demand>| match resolve_target_selects(&ckey("t", None), configurable(), &labels, &keys, &demands) {
        SelectResolution::Error(e) => e,
        _ => panic!("error"),
    };
    assert_eq!(
        error(vec![Demand::Missing, plain(), Demand::Missing]),
        Error::Invalid {
            what: "select condition".to_string(),
            detail: "condition ':b' of a select on //p:t is not a config_setting (no ConfigMatchInfo)".to_string(),
        }
    );
    assert_eq!(
        error(vec![Demand::Ready(NodeValue::Other), plain()]),
        Error::Invalid {
            what: "select condition".to_string(),
            detail: "a select condition CT was not a ConfiguredTarget".to_string(),
        }
    );
    // With answers for all of them, an attribute may still have no value.
    assert_eq!(
        error(vec![setting(true, &[]), setting(false, &[]), setting(false, &[])]),
        select_error("configurable attribute of '//p:t' has no matching condition and no //conditions:default (conditions: [\":b\", \":c\"])")
    );
}

#[test]
fn maps_keep_one_value_per_key() {
    let mut m: StringMap<u8> = StringMap::default();
    assert_eq!(m.get("a"), None);
    assert!(m.is_empty());
    m.insert("a".to_string(), 1);
    m.insert("b".to_string(), 2);
    m.insert("a".to_string(), 3);
    assert_eq!((m.get("a"), m.get("b"), m.get("")), (Some(&3), Some(&2), None));
    assert!(!m.is_empty());
}

#[test]
fn copies_of_configurations_match_alike() {
    let copy = host().clone();
    let target = cs_target("m", &["@platforms//os:osx"], &[("cpu", "darwin_arm64")]);
    let key = ckey("m", Some("host"));
    assert_eq!(compute_config_match(&key, &target, &copy), compute_config_match(&key, &target, &host()));
    assert!(matched(&compute_config_match(&key, &target, &copy).unwrap()));
}

#[test]
fn nested_dictionaries_are_keys_too() {
    let key = |x: &str| BzlValue::List(vec![s(x), BzlValue::Other(vec![1, 2])]);
    let one = BzlValue::Dict(vec![(key("a"), s("1")), (key("b"), s("2"))]);
    let two = BzlValue::Dict(vec![(key("a"), s("3"))]);
    assert_eq!(
        concat_resolved(vec![one, two], "//p:t"),
        Ok(BzlValue::Dict(vec![(key("b"), s("2")), (key("a"), s("3"))]))
    );
}
