//! The analysis, step by step.

use razel_analysis::analysis::ConfiguredTargetFn;
use razel_analysis::decl::{
    ActionTemplate, BzlModule, Package, ProviderId, ProviderInstance, RuleOrigin, TargetDecl,
};
use razel_analysis::error::Error;
use razel_analysis::evaluation::{RuleResult, SourceRead};
use razel_analysis::key::{ConfiguredTargetKey, NodeKey};
use razel_analysis::label::{resolve_dep, ExternalRepo, ExternalRepos};
use razel_analysis::node::{Demand, NodeValue, Request, ToolchainContextKey, ToolchainTypeReq};
use razel_analysis::select::{SelectConfig, CONFIG_MATCH_INFO};
use razel_analysis::stage::{
    AwaitDeps, AwaitEvaluation, AwaitLoadPath, AwaitScan, AwaitSource, AwaitToolchains,
    ComputeResult, Step,
};
use razel_analysis::string_map::StringMap;
use razel_analysis::target::{ConfiguredTarget, DepOutput};
use razel_analysis::value::{AttrType, BzlValue, RuleDef, SelectArm};

fn s(x: &str) -> BzlValue {
    BzlValue::Str(x.to_string())
}

fn list(xs: &[&str]) -> BzlValue {
    BzlValue::List(xs.iter().map(|x| s(x)).collect())
}

fn texts(xs: &[&str]) -> Vec<String> {
    xs.iter().map(|x| x.to_string()).collect()
}

fn ckey(package: &str, name: &str, cfg: Option<&str>) -> ConfiguredTargetKey {
    ConfiguredTargetKey {
        package: package.to_string(),
        name: name.to_string(),
        configuration: cfg.map(|c| c.to_string()),
        exec_platform: None,
        rule_transition: None,
    }
}

fn node(package: &str, name: &str, cfg: Option<&str>) -> NodeKey {
    NodeKey::from_key(&ckey(package, name, cfg))
}

fn attrs(xs: &[(&str, BzlValue)]) -> Vec<(String, BzlValue)> {
    xs.iter().map(|(n, v)| (n.to_string(), v.clone())).collect()
}

fn decl(kind: &str, name: &str, xs: &[(&str, BzlValue)]) -> TargetDecl {
    TargetDecl { kind: kind.to_string(), name: name.to_string(), attrs: attrs(xs), origin: None }
}

fn made(name: &str, xs: &[(&str, BzlValue)]) -> TargetDecl {
    TargetDecl {
        kind: "lib".to_string(),
        name: name.to_string(),
        attrs: attrs(xs),
        origin: Some(RuleOrigin { bzl: "rules/lib.bzl".to_string(), name: "lib".to_string() }),
    }
}

fn info(name: &str) -> ProviderInstance {
    ProviderInstance { provider: ProviderId::from_name(name), fields: attrs(&[("x", s(name))]) }
}

fn action(outputs: &[&str]) -> ActionTemplate {
    ActionTemplate {
        mnemonic: "Run".to_string(),
        argv: texts(&["run"]),
        inputs: vec![],
        outputs: texts(outputs),
        env: vec![],
    }
}

fn built(provider: &str, actions: Vec<ActionTemplate>, dep_outputs: Vec<DepOutput>, visibility: &[&str]) -> ConfiguredTarget {
    ConfiguredTarget { providers: vec![info(provider)], actions, dep_outputs, visibility: texts(visibility) }
}

fn output(path: &str, producer: ConfiguredTargetKey, action_index: u32) -> DepOutput {
    DepOutput { exec_path: path.to_string(), producer_ct: producer, action_index }
}

fn ready(t: ConfiguredTarget) -> Demand {
    Demand::Ready(NodeValue::Target(t))
}

fn package(targets: Vec<TargetDecl>) -> Demand {
    Demand::Ready(NodeValue::Package(Package { targets }))
}

fn other() -> Demand {
    Demand::Ready(NodeValue::Other)
}

fn invalid(what: &str, detail: &str) -> Error {
    Error::Invalid { what: what.to_string(), detail: detail.to_string() }
}

fn error(step: Step) -> Error {
    match step {
        Step::Done(ComputeResult::Error(e)) => e,
        _ => panic!("an error"),
    }
}

fn missing(step: Step) -> Vec<Request> {
    match step {
        Step::Done(ComputeResult::Missing(requests)) => requests,
        _ => panic!("missing nodes"),
    }
}

fn target(step: Step) -> ConfiguredTarget {
    match step {
        Step::Done(ComputeResult::Ready(t)) => t,
        _ => panic!("a configured target"),
    }
}

/// Starts the analysis of `//p:t` and answers the package.
fn declared(f: &ConfiguredTargetFn, cfg: Option<&str>, d: Demand) -> Step {
    match f.start(&node("p", "t", cfg)) {
        Step::Package(stage) => {
            assert_eq!(stage.request(), Request::Package("p".to_string()));
            stage.answer(f, d)
        }
        _ => panic!("the package"),
    }
}

/// Goes on to the dependencies, with a rule of the given attributes and toolchains.
fn deps_stage(cfg: Option<&str>, xs: &[(&str, BzlValue)], toolchains: &[&str]) -> AwaitDeps {
    let f = ConfiguredTargetFn::new();
    let file = match declared(&f, cfg, package(vec![made("t", xs)])) {
        Step::RuleFile(stage) => stage,
        _ => panic!("the file"),
    };
    assert_eq!(file.request(), Request::File("rules/lib.bzl".to_string()));
    let module = match file.answer(Demand::Ready(NodeValue::File { exists: true })) {
        Step::RuleModule(stage) => stage,
        _ => panic!("the module"),
    };
    assert_eq!(module.request(), Request::RuleModule("rules/lib.bzl".to_string()));
    let rule = RuleDef {
        attrs: vec![
            ("deps".to_string(), AttrType::Label),
            ("srcs".to_string(), AttrType::Plain),
            ("tool".to_string(), AttrType::Label),
            ("absent".to_string(), AttrType::Label),
        ],
        toolchains: texts(toolchains),
    };
    let exports = vec![("lib".to_string(), BzlValue::Rule(rule))];
    match module.answer(&f, Ok(Demand::Ready(NodeValue::Module(BzlModule { exports })))) {
        Step::Deps(stage) => stage,
        _ => panic!("the dependencies"),
    }
}

fn toolchain_stage(step: Step) -> AwaitToolchains {
    match step {
        Step::Toolchains(stage) => stage,
        _ => panic!("the toolchains"),
    }
}

fn source_stage(step: Step) -> AwaitSource {
    match step {
        Step::Source(stage) => stage,
        _ => panic!("the source"),
    }
}

fn scan_stage(step: Step) -> AwaitScan {
    match step {
        Step::Scan(stage) => stage,
        _ => panic!("the scan"),
    }
}

fn path_stage(step: Step) -> AwaitLoadPath {
    match step {
        Step::LoadPath(stage) => stage,
        _ => panic!("the path of a load"),
    }
}

fn evaluation_stage(step: Step) -> AwaitEvaluation {
    match step {
        Step::Evaluation(stage) => stage,
        _ => panic!("the evaluation"),
    }
}

/// A target without dependencies, at its source.
fn at_source() -> AwaitSource {
    source_stage(deps_stage(None, &[("visibility", list(&["//visibility:public"]))], &[]).answer(vec![]))
}

#[test]
fn unreadable_keys_end_the_analysis() {
    let f = ConfiguredTargetFn::new();
    let k = NodeKey { kind: 40, bytes: vec![0, 0] };
    assert_eq!(error(f.start(&k)), invalid("CONFIGURED_TARGET key", "truncated"));
}

#[test]
fn the_package_declares_the_target() {
    let f = ConfiguredTargetFn::new();
    assert_eq!(missing(declared(&f, None, Demand::Missing)), vec![Request::Package("p".to_string())]);
    assert_eq!(error(declared(&f, None, other())), invalid("PACKAGE value", "not a Package"));
    assert_eq!(
        error(declared(&f, None, package(vec![made("u", &[])]))),
        Error::NotFound { what: "target".to_string(), detail: "//p:t".to_string() }
    );
    assert_eq!(
        error(declared(&f, None, package(vec![decl("lib", "t", &[])]))),
        Error::Unsupported {
            what: "analyze a target with no rule definition",
            detail: "//p:t was not instantiated by a rule()".to_string(),
        }
    );
}

#[test]
fn config_settings_are_matched_at_once() {
    let mut platforms = StringMap::new();
    platforms.insert("host".to_string(), texts(&["@c//:x"]));
    let select_config = SelectConfig { platforms, values: StringMap::new() };
    let f = ConfiguredTargetFn::new_with_repos_and_select(ExternalRepos::empty(), select_config);
    let setting = || package(vec![decl("config_setting", "t", &[("constraint_values", list(&["@c//:x"]))])]);
    let t = target(declared(&f, Some("host"), setting()));
    assert_eq!(t.providers[0].get("matched"), Some(&BzlValue::Bool(true)));
    // Without configurations there is nothing to match against.
    assert!(matches!(
        error(declared(&ConfiguredTargetFn::new(), Some("host"), setting())),
        Error::Unsupported { what: "config_setting resolution", .. }
    ));
    assert!(matches!(error(declared(&f, None, setting())), Error::Unsupported { .. }));
}

#[test]
fn aliases_ask_for_one_label() {
    let f = ConfiguredTargetFn::new();
    let refused = invalid("alias 'actual'", "//p:t alias requires a single 'actual' label string");
    assert_eq!(error(declared(&f, None, package(vec![decl("alias", "t", &[])]))), refused);
    assert_eq!(error(declared(&f, None, package(vec![decl("alias", "t", &[("actual", list(&[":a"]))])]))), refused);
    assert!(matches!(
        error(declared(&f, None, package(vec![decl("alias", "t", &[("actual", s("@r//x:y"))])]))),
        Error::NotFound { .. }
    ));
    let repos = ExternalRepos::from_pairs(vec![(
        "r".to_string(),
        ExternalRepo { root: "/r".to_string(), build_file: None },
    )]);
    let f = ConfiguredTargetFn::new_with_repos(repos);
    match declared(&f, Some("c"), package(vec![decl("alias", "t", &[("actual", s("@r//x:y"))])])) {
        Step::Actual(stage) => {
            let asked = Request::Target(node("@r//x", "y", Some("c")));
            assert_eq!(stage.request(), asked);
            assert_eq!(missing(stage.answer(Demand::Missing)), vec![asked]);
        }
        _ => panic!("the actual target"),
    }
}

fn alias(actual: &str, d: Demand) -> Step {
    let f = ConfiguredTargetFn::new();
    let t = decl("alias", "t", &[("actual", s(actual)), ("visibility", s("//visibility:private"))]);
    match declared(&f, None, package(vec![t])) {
        Step::Actual(stage) => stage.answer(d),
        _ => panic!("the actual target"),
    }
}

#[test]
fn aliases_forward_what_they_stand_for() {
    let deep = output("out/deep", ckey("z", "d", None), 4);
    let actual = built("Info", vec![action(&["out/a", "out/b"]), action(&["out/c"])], vec![deep.clone()], &["//visibility:public"]);
    let t = target(alias("//q:a", ready(actual)));
    let q = ckey("q", "a", None);
    assert_eq!(
        t,
        ConfiguredTarget {
            providers: vec![info("Info")],
            actions: vec![],
            dep_outputs: vec![
                output("out/a", q.clone(), 0),
                output("out/b", q.clone(), 0),
                output("out/c", q, 1),
                deep,
            ],
            visibility: texts(&["//visibility:private"]),
        }
    );
}

#[test]
fn aliases_check_their_edge() {
    let private = || ready(built("Info", vec![], vec![], &[]));
    assert_eq!(
        error(alias("//q:a", private())),
        invalid(
            "visibility",
            "target '//q:a' is not visible to '//p:t' (default private; add visibility = [\"//visibility:public\"])"
        )
    );
    assert_eq!(target(alias(":a", private())).providers, vec![info("Info")]);
    assert_eq!(error(alias(":a", other())), invalid("alias actual", "not a ConfiguredTarget"));
    let twice = ready(built("Info", vec![action(&["o"]), action(&["o"])], vec![], &[]));
    assert_eq!(
        error(alias(":a", twice)),
        Error::Conflict {
            what: "duplicate dep output".to_string(),
            detail: "//p:t: dep output 'o' is produced by two distinct dependencies".to_string(),
        }
    );
}

#[test]
fn conditions_are_asked_for_before_the_rule() {
    let f = ConfiguredTargetFn::new();
    let select = |label: &str| {
        BzlValue::Select(vec![SelectArm::Branch {
            conditions: vec![(label.to_string(), list(&["//x:y"]))],
            no_match_error: String::new(),
        }])
    };
    let stage = |label: &str| match declared(&f, Some("c"), package(vec![made("t", &[("deps", select(label))])])) {
        Step::Conditions(stage) => stage,
        _ => panic!("the conditions"),
    };
    assert_eq!(stage("//cfg:on").keys, vec![node("cfg", "on", Some("c"))]);
    assert_eq!(
        missing(stage("//cfg:on").answer(&f, vec![Demand::Missing])),
        vec![Request::Target(node("cfg", "on", Some("c")))]
    );
    assert!(matches!(error(stage("//cfg:on").answer(&f, vec![other()])), Error::Invalid { .. }));
    let on = || {
        ready(ConfiguredTarget {
            providers: vec![ProviderInstance {
                provider: ProviderId::from_name(CONFIG_MATCH_INFO),
                fields: attrs(&[("matched", BzlValue::Bool(true)), ("settings", list(&["s"]))]),
            }],
            actions: vec![],
            dep_outputs: vec![],
            visibility: vec![],
        })
    };
    match stage("//cfg:on").answer(&f, vec![on()]) {
        Step::RuleFile(next) => assert_eq!(next.subject.target.attrs, attrs(&[("deps", list(&["//x:y"]))])),
        _ => panic!("the file"),
    }
    assert!(matches!(
        error(declared(&f, None, package(vec![made("t", &[("deps", select("bare"))])]))),
        Error::Unsupported { .. }
    ));
}

#[test]
fn the_file_of_the_rule_has_to_exist() {
    let f = ConfiguredTargetFn::new();
    let stage = || match declared(&f, None, package(vec![made("t", &[])])) {
        Step::RuleFile(stage) => stage,
        _ => panic!("the file"),
    };
    assert_eq!(missing(stage().answer(Demand::Missing)), vec![Request::File("rules/lib.bzl".to_string())]);
    assert_eq!(
        error(stage().answer(Demand::Ready(NodeValue::File { exists: false }))),
        Error::NotFound { what: "rule .bzl".to_string(), detail: "rules/lib.bzl".to_string() }
    );
    assert_eq!(error(stage().answer(other())), invalid("FILE value", "rule .bzl dep was not a FileValue"));
}

#[test]
fn the_module_has_to_define_the_rule() {
    let f = ConfiguredTargetFn::new();
    let stage = |xs: &[(&str, BzlValue)]| match declared(&f, None, package(vec![made("t", xs)])) {
        Step::RuleFile(stage) => match stage.answer(Demand::Ready(NodeValue::File { exists: true })) {
            Step::RuleModule(stage) => stage,
            _ => panic!("the module"),
        },
        _ => panic!("the file"),
    };
    let module = |exports: Vec<(String, BzlValue)>| Ok(Demand::Ready(NodeValue::Module(BzlModule { exports })));
    let refused = invalid("env", "none");
    assert_eq!(error(stage(&[]).answer(&f, Err(refused.clone()))), refused);
    assert_eq!(
        missing(stage(&[]).answer(&f, Ok(Demand::Missing))),
        vec![Request::RuleModule("rules/lib.bzl".to_string())]
    );
    assert_eq!(error(stage(&[]).answer(&f, Ok(other()))), invalid("BZL_LOAD value", "not a BzlModuleValue"));
    let no_rule = invalid("rule definition", "'lib' is not a rule in rules/lib.bzl");
    assert_eq!(error(stage(&[]).answer(&f, module(vec![]))), no_rule);
    assert_eq!(error(stage(&[]).answer(&f, module(attrs(&[("lib", s("no rule"))])))), no_rule);
    let rule = BzlValue::Rule(RuleDef { attrs: vec![("deps".to_string(), AttrType::Label)], toolchains: vec![] });
    assert!(matches!(
        error(stage(&[("deps", list(&[":a", "bare"]))]).answer(&f, module(vec![("lib".to_string(), rule)]))),
        Error::Unsupported { what: "dep label form", .. }
    ));
}

#[test]
fn label_attributes_name_the_dependencies() {
    let mixed = BzlValue::List(vec![s(":a"), BzlValue::Bool(true), s("//q:b")]);
    let stage = deps_stage(
        Some("c"),
        &[("tool", s("//tools:t")), ("srcs", list(&["x.c"])), ("deps", mixed)],
        &[],
    );
    assert_eq!(stage.labels, texts(&[":a", "//q:b", "//tools:t"]));
    assert_eq!(
        stage.keys,
        vec![node("p", "a", Some("c")), node("q", "b", Some("c")), node("tools", "t", Some("c"))]
    );
    let parent = ckey("p", "t", Some("c"));
    assert_eq!(stage.keys[1], resolve_dep(&parent, "//q:b", &ExternalRepos::empty()).unwrap());
}

fn two_deps() -> AwaitDeps {
    deps_stage(None, &[("deps", list(&[":a", "//q:b"]))], &[])
}

#[test]
fn dependencies_hand_on_providers_and_outputs() {
    let public = &["//visibility:public"][..];
    let deep = output("out/deep", ckey("z", "d", None), 0);
    let a = built("A", vec![action(&["out/a"])], vec![deep.clone()], &[]);
    // The same producer of one path on two ways is no conflict.
    let b = built("B", vec![action(&[]), action(&["out/b"])], vec![deep.clone(), output("out/a", ckey("p", "a", None), 0)], public);
    let next = source_stage(two_deps().answer(vec![ready(a), ready(b)]));
    assert_eq!(next.path(), "rules/lib.bzl");
    let seen: Vec<(String, Vec<ProviderInstance>)> =
        next.inputs.deps.providers.into_iter().map(|d| (d.label, d.providers)).collect();
    assert_eq!(seen, vec![(":a".to_string(), vec![info("A")]), ("//q:b".to_string(), vec![info("B")])]);
    assert_eq!(
        next.inputs.deps.outputs,
        vec![output("out/a", ckey("p", "a", None), 0), deep, output("out/b", ckey("q", "b", None), 1)]
    );
}

#[test]
fn two_producers_of_one_path_conflict() {
    let public = &["//visibility:public"][..];
    let a = built("A", vec![action(&["out/x"])], vec![], &[]);
    let b = built("B", vec![action(&["out/x"])], vec![], public);
    assert_eq!(
        error(two_deps().answer(vec![ready(a), ready(b)])),
        Error::Conflict {
            what: "duplicate dep output".to_string(),
            detail: "//p:t: dep output 'out/x' is produced by two distinct dependencies".to_string(),
        }
    );
}

#[test]
fn unbuilt_dependencies_are_waited_for() {
    let a = || ready(built("A", vec![], vec![], &[]));
    assert_eq!(
        missing(two_deps().answer(vec![a(), Demand::Missing])),
        vec![Request::Target(node("q", "b", None))]
    );
    assert_eq!(
        missing(two_deps().answer(vec![Demand::Missing, Demand::Missing])),
        vec![Request::Target(node("p", "a", None)), Request::Target(node("q", "b", None))]
    );
    // A failure is found although another dependency is not built.
    assert_eq!(
        error(two_deps().answer(vec![Demand::Missing, other()])),
        invalid("CONFIGURED_TARGET dep", "not a ConfiguredTarget")
    );
    assert_eq!(
        error(two_deps().answer(vec![Demand::Missing, ready(built("B", vec![], vec![], &[]))])),
        invalid(
            "visibility",
            "target '//q:b' is not visible to '//p:t' (default private; add visibility = [\"//visibility:public\"])"
        )
    );
}

#[test]
fn toolchains_take_a_configuration() {
    let stage = deps_stage(None, &[("deps", list(&[":a"]))], &["//tc:rust", "//tc:cc"]);
    assert_eq!(
        error(stage.answer(vec![Demand::Missing])),
        Error::Unsupported {
            what: "toolchain resolution",
            detail: "target 'p:t' requires toolchains [\"//tc:rust\", \"//tc:cc\"] but has no configuration".to_string(),
        }
    );
}

#[test]
fn toolchains_are_resolved_by_type() {
    let stage = |d: Demand| {
        toolchain_stage(deps_stage(Some("c"), &[("deps", list(&[":a"]))], &["//tc:rust", "//tc:cc"]).answer(vec![d]))
    };
    let dep = || ready(built("A", vec![], vec![], &[]));
    let asked = Request::Toolchains(ToolchainContextKey {
        configuration: "c".to_string(),
        types: vec![
            ToolchainTypeReq { toolchain_type: "//tc:rust".to_string(), mandatory: true },
            ToolchainTypeReq { toolchain_type: "//tc:cc".to_string(), mandatory: true },
        ],
        exec_constraints: vec![],
        force_exec_platform: None,
        debug_target: false,
    });
    assert_eq!(stage(dep()).request(), asked);
    let dep_request = Request::Target(node("p", "a", Some("c")));
    assert_eq!(missing(stage(Demand::Missing).answer(Demand::Missing)), vec![dep_request, asked]);
    let resolved = |types: &[&str]| {
        let mut m = StringMap::new();
        for ty in types {
            m.insert(ty.to_string(), s(&format!("info of {ty}")));
        }
        Demand::Ready(NodeValue::Toolchains(m))
    };
    assert_eq!(
        missing(stage(Demand::Missing).answer(resolved(&["//tc:cc", "//tc:rust"]))),
        vec![Request::Target(node("p", "a", Some("c")))]
    );
    assert_eq!(
        error(stage(Demand::Missing).answer(resolved(&["//tc:rust"]))),
        invalid("TOOLCHAIN_CONTEXT value", "mandatory toolchain type '//tc:cc' absent from the resolved context")
    );
    assert_eq!(
        error(stage(dep()).answer(other())),
        invalid("TOOLCHAIN_CONTEXT dep", "not a ResolvedToolchainContextValue")
    );
    let next = source_stage(stage(dep()).answer(resolved(&["//tc:cc", "//tc:rust"])));
    let seen: Vec<(String, BzlValue)> =
        next.inputs.toolchains.into_iter().map(|t| (t.toolchain_type, t.info)).collect();
    assert_eq!(
        seen,
        vec![
            ("//tc:rust".to_string(), s("info of //tc:rust")),
            ("//tc:cc".to_string(), s("info of //tc:cc")),
        ]
    );
}

#[test]
fn the_source_has_to_be_text() {
    let e = invalid("path", "outside");
    assert_eq!(error(at_source().answer(SourceRead::Unresolved(e.clone()))), e);
    assert_eq!(
        error(at_source().answer(SourceRead::Unreadable("NotFound".to_string()))),
        invalid("read rule .bzl", "NotFound")
    );
    assert_eq!(
        error(at_source().answer(SourceRead::Bytes(vec![0xc3]))),
        invalid("rule .bzl", "non-utf8")
    );
    let scan = scan_stage(at_source().answer(SourceRead::Bytes(vec![b'#', 0xc3, 0xa9])));
    assert_eq!(scan.source, "#é");
    assert_eq!(
        error(scan.answer(Err("Parse".to_string()))),
        invalid("rule .bzl load scan", "Parse")
    );
}

fn scanned(loads: &[&str]) -> Step {
    scan_stage(at_source().answer(SourceRead::Bytes(b"src".to_vec()))).answer(Ok(texts(loads)))
}

#[test]
fn loads_are_looked_for_one_by_one() {
    let stage = path_stage(scanned(&["//x:a.bzl", ":b.bzl"]));
    assert_eq!((stage.load.as_str(), stage.context()), ("//x:a.bzl", None));
    let e = invalid("load", "nowhere");
    assert_eq!(error(stage.answer(Err(e.clone()))), e);

    let load = |step: Step, path: &str| match path_stage(step).answer(Ok(path.to_string())) {
        Step::Load(stage) => stage,
        _ => panic!("the load"),
    };
    let module = |n: &str| BzlModule { exports: attrs(&[(n, s(n))]) };
    let answer = |n: &str| Ok(Demand::Ready(NodeValue::Module(module(n))));

    let first = load(scanned(&["//x:a.bzl", ":b.bzl"]), "external/r/x/a.bzl");
    let asked = Request::LoadedModule { path: "external/r/x/a.bzl".to_string(), context: Some("r".to_string()) };
    assert_eq!(first.request(), asked);
    // What is missing is collected until the last load.
    let second = load(first.answer(Ok(Demand::Missing)), "rules/b.bzl");
    assert_eq!(second.request(), Request::LoadedModule { path: "rules/b.bzl".to_string(), context: None });
    assert_eq!(missing(second.answer(answer("b"))), vec![asked]);

    let first = load(scanned(&["//x:a.bzl", ":b.bzl"]), "external/r/x/a.bzl");
    let second = load(first.answer(answer("a")), "rules/b.bzl");
    let done = evaluation_stage(second.answer(answer("b")));
    assert_eq!(
        done.loaded,
        vec![("//x:a.bzl".to_string(), module("a")), (":b.bzl".to_string(), module("b"))]
    );

    let only = load(scanned(&[":b.bzl"]), "rules/b.bzl");
    assert_eq!(
        error(only.answer(Ok(other()))),
        invalid("BZL_LOAD value", "load ':b.bzl' of rules/lib.bzl was not a BzlModuleValue")
    );
    let only = load(scanned(&[":b.bzl"]), "rules/b.bzl");
    let refused = invalid("key", "none");
    assert_eq!(error(only.answer(Err(refused.clone()))), refused);
}

#[test]
fn the_run_of_the_rule_ends_the_analysis() {
    let stage = evaluation_stage(scanned(&[]));
    assert_eq!(stage.label(), "//p:t");
    assert_eq!((stage.source.as_str(), stage.loaded.len()), ("src", 0));
    assert_eq!(error(stage.answer(Err("Eval".to_string()))), invalid("rule evaluation", "Eval"));

    let a = built("A", vec![action(&["out/a"])], vec![], &[]);
    let source = source_stage(deps_stage(None, &[("deps", list(&[":a"])), ("visibility", s("//visibility:public"))], &[]).answer(vec![ready(a)]));
    let stage = evaluation_stage(scan_stage(source.answer(SourceRead::Bytes(vec![]))).answer(Ok(vec![])));
    let result = RuleResult { providers: vec![info("Lib")], actions: vec![action(&["out/lib"])] };
    assert_eq!(
        target(stage.answer(Ok(result))),
        ConfiguredTarget {
            providers: vec![info("Lib")],
            actions: vec![action(&["out/lib"])],
            dep_outputs: vec![output("out/a", ckey("p", "a", None), 0)],
            visibility: texts(&["//visibility:public"]),
        }
    );
}
