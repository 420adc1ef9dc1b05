//! The course of a whole analysis, in a build graph that stands still.

use vstd::prelude::*;
use crate::analysis::{self, ConfiguredTargetFn};
use crate::configurable;
use crate::decl::{self, DeclView};
use crate::dependencies;
use crate::error::{self, Error, ErrorView};
use crate::evaluation::{self, RuleResult, RuleResultView, SourceRead, SourceView};
use crate::key::{self, KeyView, NodeKey, NodeKeyView};
use crate::label;
use crate::node::{self, Demand, DemandView, NodeValueView, Request, RequestView};
use crate::seqs;
use crate::stage::{
    self, AwaitActual, AwaitConditions, AwaitDeps, AwaitEvaluation, AwaitLoad, AwaitLoadPath,
    AwaitPackage, AwaitRuleFile, AwaitRuleModule, AwaitScan, AwaitSource, AwaitToolchains,
    InputsView, LoadsView, ResultView, Step, StepView, SubjectView,
};
use crate::target;
use crate::value::{self, ValueView};
use crate::visibility;

verus! {

/// What the caller of an analysis answers, for everything that may be asked.
pub ghost struct World {
    /// What the nodes of the build graph hold.
    pub nodes: spec_fn(RequestView) -> DemandView,
    /// The modules that cannot be asked for.
    pub refused: spec_fn(RequestView) -> Option<ErrorView>,
    /// What comes of reading a source.
    pub source: spec_fn(Seq<char>) -> SourceView,
    /// The modules that a source loads.
    pub scan: spec_fn(Seq<char>) -> Result<Seq<Seq<char>>, Seq<char>>,
    /// The path of a load: by the repository it is looked for in, the loading module and the load.
    pub load_path: spec_fn(Option<Seq<char>>, Seq<char>, Seq<char>) -> Result<Seq<char>, ErrorView>,
    /// What the run of a rule yields.
    pub evaluate: spec_fn(
        InputsView,
        Seq<char>,
        Seq<(Seq<char>, Seq<(Seq<char>, ValueView)>)>,
    ) -> Result<RuleResultView, Seq<char>>,
}

impl World {
    /// The answer to a request for a module.
    pub open spec fn module(self, r: RequestView) -> Result<DemandView, ErrorView> {
        match (self.refused)(r) {
            Some(e) => Err(e),
            None => Ok((self.nodes)(r)),
        }
    }

    /// The answers to a group of requests for configured targets.
    pub open spec fn group(self, keys: Seq<NodeKeyView>) -> Seq<DemandView> {
        keys.map_values(|k: NodeKeyView| (self.nodes)(RequestView::Target(k)))
    }

    /// Whether a node is not built yet.
    pub open spec fn lacks(self, r: RequestView) -> bool {
        (self.nodes)(r) is Missing
    }
}

/// The step after a step.
pub open spec fn next(f: ConfiguredTargetFn, w: World, s: StepView) -> StepView {
    match s {
        StepView::Done(r) => s,
        StepView::Package { ctk } => analysis::after_package(
            f,
            ctk,
            (w.nodes)(RequestView::Package(ctk.package)),
        ),
        StepView::Actual { ctk, actual, visibility, node } => StepView::Done(
            analysis::after_actual(
                ctk,
                actual,
                visibility,
                node,
                (w.nodes)(RequestView::Target(node)),
            ),
        ),
        StepView::Conditions { ctk, target, labels, keys } => analysis::after_conditions(
            ctk,
            target,
            labels,
            keys,
            w.group(keys),
        ),
        StepView::RuleFile { subject } => analysis::after_rule_file(
            subject,
            (w.nodes)(RequestView::File(subject.origin.bzl)),
        ),
        StepView::RuleModule { subject } => dependencies::after_rule_module(
            f,
            subject,
            w.module(RequestView::RuleModule(subject.origin.bzl)),
        ),
        StepView::Deps { subject, required, labels, keys } => dependencies::after_deps(
            subject,
            required,
            labels,
            keys,
            w.group(keys),
        ),
        StepView::Toolchains {
            subject,
            configuration,
            required,
            missing,
            deps,
        } => dependencies::after_toolchain_answer(
            subject,
            configuration,
            required,
            missing,
            deps,
            (w.nodes)(dependencies::toolchain_request(configuration, required)),
        ),
        StepView::Source { inputs } => evaluation::after_source(
            inputs,
            (w.source)(inputs.subject.origin.bzl),
        ),
        StepView::Scan { inputs, source } => evaluation::after_scan(
            inputs,
            source,
            (w.scan)(source),
        ),
        StepView::LoadPath { inputs, source, load, loads } => evaluation::after_load_path(
            inputs,
            source,
            load,
            loads,
            (w.load_path)(
                label::repo_of(inputs.subject.origin.bzl),
                inputs.subject.origin.bzl,
                load,
            ),
        ),
        StepView::Load { inputs, source, load, path, loads } => evaluation::after_load(
            inputs,
            source,
            load,
            path,
            loads,
            w.module(evaluation::load_request(path)),
        ),
        StepView::Evaluation { inputs, source, loaded } => StepView::Done(
            evaluation::after_evaluation(inputs, (w.evaluate)(inputs, source, loaded)),
        ),
    }
}

/// How far a step is from the end.
pub open spec fn phase(s: StepView) -> nat {
    match s {
        StepView::Package { .. } => 9,
        StepView::Actual { .. } => 8,
        StepView::Conditions { .. } => 8,
        StepView::RuleFile { .. } => 7,
        StepView::RuleModule { .. } => 6,
        StepView::Deps { .. } => 5,
        StepView::Toolchains { .. } => 4,
        StepView::Source { .. } => 3,
        StepView::Scan { .. } => 2,
        StepView::LoadPath { .. } => 1,
        StepView::Load { .. } => 1,
        StepView::Evaluation { .. } => 0,
        StepView::Done(_) => 0,
    }
}

/// How far a step is from the end of its phase.
pub open spec fn remaining(s: StepView) -> nat {
    match s {
        StepView::LoadPath { loads, .. } => 2 * loads.rest.len() + 1,
        StepView::Load { loads, .. } => 2 * loads.rest.len(),
        StepView::Evaluation { .. } => 1,
        _ => 0,
    }
}

/// The result that the course from a step on leads to.
pub open spec fn concluded(f: ConfiguredTargetFn, w: World, s: StepView) -> ResultView
    decreases phase(s), remaining(s),
{
    match s {
        StepView::Done(r) => r,
        _ => concluded(f, w, next(f, w, s)),
    }
}

/// The result of the analysis of a target.
pub open spec fn analysed(f: ConfiguredTargetFn, w: World, k: NodeKeyView) -> ResultView {
    concluded(f, w, analysis::after_start(k))
}

// ---- Laws of the course ----

/// Whether everything that a step holds as missing is not built.
pub open spec fn truthful(w: World, s: StepView) -> bool {
    match s {
        StepView::Toolchains { missing, .. } => forall|i: int|
            0 <= i < missing.len() ==> w.lacks(RequestView::Target(#[trigger] missing[i])),
        StepView::LoadPath { loads, .. } => forall|i: int|
            0 <= i < loads.missing.len() ==> w.lacks(#[trigger] loads.missing[i]),
        StepView::Load { loads, .. } => forall|i: int|
            0 <= i < loads.missing.len() ==> w.lacks(#[trigger] loads.missing[i]),
        StepView::Done(ResultView::Missing(requests)) => requests.len() > 0 && forall|i: int|
            0 <= i < requests.len() ==> w.lacks(#[trigger] requests[i]),
        _ => true,
    }
}

/// What is missing of a group is not built.
proof fn lemma_group_is_truthful(w: World, keys: Seq<NodeKeyView>, n: int)
    requires
        0 <= n <= keys.len(),
    ensures
        ({
            let missing = node::missing_among(keys, w.group(keys).take(n));
            forall|i: int|
                0 <= i < missing.len() ==> w.lacks(RequestView::Target(#[trigger] missing[i]))
        }),
    decreases n,
{
    if n > 0 {
        let demands = w.group(keys).take(n);
        assert(demands.drop_last() =~= w.group(keys).take(n - 1));
        lemma_group_is_truthful(w, keys, n - 1);
        let before = node::missing_among(keys, w.group(keys).take(n - 1));
        let missing = node::missing_among(keys, demands);
        assert(demands.last() == (w.nodes)(RequestView::Target(keys[n - 1])));
        assert forall|i: int| 0 <= i < missing.len() implies w.lacks(
            RequestView::Target(#[trigger] missing[i]),
        ) by {
            if i < before.len() {
                assert(missing[i] == before[i]);
            }
        }
    }
}

/// A step that holds only what is missing leads to such a step.
proof fn lemma_next_is_truthful(f: ConfiguredTargetFn, w: World, s: StepView)
    requires
        truthful(w, s),
    ensures
        truthful(w, next(f, w, s)),
{
    match s {
        StepView::Conditions { keys, .. } => {
            lemma_group_is_truthful(w, keys, keys.len() as int);
            assert(w.group(keys).take(keys.len() as int) =~= w.group(keys));
        },
        StepView::Deps { keys, .. } => {
            lemma_group_is_truthful(w, keys, keys.len() as int);
            assert(w.group(keys).take(keys.len() as int) =~= w.group(keys));
        },
        StepView::Load { path, loads, .. } => {
            let more = loads.missing.push(evaluation::load_request(path));
            assert forall|i: int|
                0 <= i < more.len() && w.lacks(evaluation::load_request(path)) implies w.lacks(
                #[trigger] more[i],
            ) by {
                if i < loads.missing.len() {
                    assert(more[i] == loads.missing[i]);
                }
            }
        },
        _ => {},
    }
}

/// A truthful step leads to a truthful result.
proof fn lemma_conclusion_is_truthful(f: ConfiguredTargetFn, w: World, s: StepView)
    requires
        truthful(w, s),
    ensures
        truthful(w, StepView::Done(concluded(f, w, s))),
    decreases phase(s), remaining(s),
{
    match s {
        StepView::Done(_) => {},
        _ => {
            lemma_next_is_truthful(f, w, s);
            lemma_conclusion_is_truthful(f, w, next(f, w, s));
        },
    }
}

/// An analysis waits only for what is not built: where it ends for want of nodes, it names at least
/// one, and none that is built.
pub proof fn law_only_missing_nodes_are_waited_for(
    f: ConfiguredTargetFn,
    w: World,
    k: NodeKeyView,
)
    requires
        analysed(f, w, k) is Missing,
    ensures
        analysed(f, w, k) matches ResultView::Missing(requests) && requests.len() > 0 && forall|
            i: int,
        |
            0 <= i < requests.len() ==> w.lacks(#[trigger] requests[i]),
{
    lemma_conclusion_is_truthful(f, w, analysis::after_start(k));
}

/// Where every node is built, an analysis comes to a target or to a failure.
pub proof fn law_complete_graphs_are_decided(f: ConfiguredTargetFn, w: World, k: NodeKeyView)
    requires
        forall|r: RequestView| !w.lacks(r),
    ensures
        !(analysed(f, w, k) is Missing),
{
    if analysed(f, w, k) is Missing {
        law_only_missing_nodes_are_waited_for(f, w, k);
        let requests = analysed(f, w, k)->Missing_0;
        assert(w.lacks(requests[0]));
    }
}

/// A key that cannot be read fails before anything is asked for.
pub proof fn law_unreadable_keys_fail(f: ConfiguredTargetFn, w: World, k: NodeKeyView)
    requires
        key::decoded(k.bytes) is Err,
    ensures
        analysed(f, w, k) == ResultView::Error(key::decoded(k.bytes)->Err_0),
{
}

/// Whether no path stands twice in the maps of outputs that a step holds.
pub open spec fn unambiguous(s: StepView) -> bool {
    match s {
        StepView::Toolchains { deps, .. } => target::paths_distinct(deps.outputs),
        StepView::Source { inputs } => target::paths_distinct(inputs.deps.outputs),
        StepView::Scan { inputs, .. } => target::paths_distinct(inputs.deps.outputs),
        StepView::LoadPath { inputs, .. } => target::paths_distinct(inputs.deps.outputs),
        StepView::Load { inputs, .. } => target::paths_distinct(inputs.deps.outputs),
        StepView::Evaluation { inputs, .. } => target::paths_distinct(inputs.deps.outputs),
        StepView::Done(ResultView::Ready(t)) => target::paths_distinct(t.dep_outputs),
        _ => true,
    }
}

/// A step without ambiguity leads to such a step.
#[verifier::rlimit(30)]
proof fn lemma_next_is_unambiguous(f: ConfiguredTargetFn, w: World, s: StepView)
    requires
        unambiguous(s),
    ensures
        unambiguous(next(f, w, s)),
{
    match s {
        StepView::Actual { ctk, actual, visibility, node } => {
            if let DemandView::Ready(NodeValueView::Target(t)) = (w.nodes)(
                RequestView::Target(node),
            ) {
                if analysis::aliased(ctk, actual, visibility, node, t) is Ok {
                    let dep = key::decoded(node.bytes)->Ok_0;
                    target::law_one_producer_per_path(
                        Seq::empty(),
                        target::contribution(dep, t),
                        ctk,
                    );
                }
            }
        },
        StepView::Deps { subject, labels, keys, .. } => {
            if dependencies::gathered(subject.ctk, labels, keys, w.group(keys)) is Ok {
                dependencies::law_dependency_outputs_are_distinct(
                    subject.ctk,
                    labels,
                    keys,
                    w.group(keys),
                );
            }
        },
        _ => {},
    }
}

/// A step without ambiguity leads to such a result.
proof fn lemma_conclusion_is_unambiguous(f: ConfiguredTargetFn, w: World, s: StepView)
    requires
        unambiguous(s),
    ensures
        unambiguous(StepView::Done(concluded(f, w, s))),
    decreases phase(s), remaining(s),
{
    match s {
        StepView::Done(_) => {},
        _ => {
            lemma_next_is_unambiguous(f, w, s);
            lemma_conclusion_is_unambiguous(f, w, next(f, w, s));
        },
    }
}

/// In every configured target that an analysis yields, a path names one producer.
pub proof fn law_results_have_one_producer_per_path(
    f: ConfiguredTargetFn,
    w: World,
    k: NodeKeyView,
)
    requires
        analysed(f, w, k) is Ready,
    ensures
        target::paths_distinct(analysed(f, w, k)->Ready_0.dep_outputs),
{
    lemma_conclusion_is_unambiguous(f, w, analysis::after_start(k));
}

/// Whether two targets are analysed in the same dimensions.
pub open spec fn same_dimensions(a: KeyView, b: KeyView) -> bool {
    &&& a.configuration == b.configuration
    &&& a.exec_platform == b.exec_platform
    &&& a.rule_transition == b.rule_transition
}

/// Whether a node is that of a configured target in the dimensions of another.
pub open spec fn akin(ctk: KeyView, node: NodeKeyView) -> bool {
    exists|dep: KeyView| #[trigger] key::target_node(dep) == node && same_dimensions(dep, ctk)
}

/// Whether all of some nodes are configured targets in the dimensions of another.
pub open spec fn all_akin(ctk: KeyView, nodes: Seq<NodeKeyView>) -> bool {
    forall|i: int| 0 <= i < nodes.len() ==> akin(ctk, #[trigger] nodes[i])
}

/// Whether all configured targets among some requests are in the dimensions of another.
pub open spec fn asks_akin(ctk: KeyView, requests: Seq<RequestView>) -> bool {
    forall|i: int|
        0 <= i < requests.len() ==> (#[trigger] requests[i] matches RequestView::Target(node)
            ==> akin(ctk, node))
}

/// Whether a step belongs to a target and asks for others in its dimensions only.
pub open spec fn threaded(ctk: KeyView, s: StepView) -> bool {
    match s {
        StepView::Done(ResultView::Missing(requests)) => asks_akin(ctk, requests),
        StepView::Done(_) => true,
        StepView::Package { ctk: own } => own == ctk,
        StepView::Actual { ctk: own, node, .. } => own == ctk && akin(ctk, node),
        StepView::Conditions { ctk: own, keys, .. } => own == ctk && all_akin(ctk, keys),
        StepView::RuleFile { subject } => subject.ctk == ctk,
        StepView::RuleModule { subject } => subject.ctk == ctk,
        StepView::Deps { subject, keys, .. } => subject.ctk == ctk && all_akin(ctk, keys),
        StepView::Toolchains { subject, missing, .. } => subject.ctk == ctk && all_akin(
            ctk,
            missing,
        ),
        StepView::LoadPath { loads, .. } => asks_akin(ctk, loads.missing),
        StepView::Load { loads, .. } => asks_akin(ctk, loads.missing),
        _ => true,
    }
}

/// A label stands for a target in the dimensions of the one that names it.
proof fn lemma_dependency_is_akin(ctk: KeyView, lbl: Seq<char>, repos: Set<Seq<char>>)
    requires
        label::dependency_node(ctk, lbl, repos) is Ok,
    ensures
        akin(ctk, label::dependency_node(ctk, lbl, repos)->Ok_0),
{
    let dep = label::dependency(ctk, lbl, repos)->Ok_0;
    label::law_dimensions_are_threaded(ctk, lbl, repos);
    assert(key::target_node(dep) == label::dependency_node(ctk, lbl, repos)->Ok_0);
}

/// Labels stand for targets in the dimensions of the one that names them.
proof fn lemma_dependencies_are_akin(ctk: KeyView, labels: Seq<Seq<char>>, repos: Set<Seq<char>>)
    requires
        label::dependency_nodes(ctk, labels, repos) is Ok,
    ensures
        all_akin(ctk, label::dependency_nodes(ctk, labels, repos)->Ok_0),
    decreases labels.len(),
{
    if labels.len() > 0 {
        lemma_dependencies_are_akin(ctk, labels.drop_last(), repos);
        lemma_dependency_is_akin(ctk, labels.last(), repos);
    }
}

/// What is missing of a group is part of the group.
proof fn lemma_missing_is_akin(ctk: KeyView, keys: Seq<NodeKeyView>, demands: Seq<DemandView>)
    requires
        demands.len() <= keys.len(),
        all_akin(ctk, keys),
    ensures
        all_akin(ctk, node::missing_among(keys, demands)),
        asks_akin(ctk, stage::target_requests(node::missing_among(keys, demands))),
    decreases demands.len(),
{
    if demands.len() > 0 {
        lemma_missing_is_akin(ctk, keys, demands.drop_last());
        assert(akin(ctk, keys[demands.len() - 1]));
    }
    lemma_requests_are_akin(ctk, node::missing_among(keys, demands));
}

/// The step after the declaration is found belongs to the target.
proof fn lemma_declaration_is_threaded(f: ConfiguredTargetFn, ctk: KeyView, target: DeclView)
    ensures
        threaded(ctk, analysis::after_declaration(f, ctk, target)),
{
    let repos = f.repos@.dom();
    if target.kind == "alias"@ {
        if let Some(ValueView::Str(actual)) = value::lookup(target.attrs, "actual"@) {
            if label::dependency_node(ctk, actual, repos) is Ok {
                lemma_dependency_is_akin(ctk, actual, repos);
            }
        }
    } else {
        let labels = configurable::conditions_of(target.attrs);
        if label::dependency_nodes(ctk, labels, repos) is Ok {
            lemma_dependencies_are_akin(ctk, labels, repos);
        }
    }
}

/// The step after the module of the rule is answered belongs to the target.
proof fn lemma_rule_is_threaded(
    f: ConfiguredTargetFn,
    subject: SubjectView,
    d: Result<DemandView, ErrorView>,
)
    ensures
        threaded(subject.ctk, dependencies::after_rule_module(f, subject, d)),
{
    if let Ok(DemandView::Ready(NodeValueView::Module(exports))) = d {
        if let Some(ValueView::Rule(rule)) = value::lookup(exports, subject.origin.name) {
            let labels = dependencies::named_deps(rule.attrs, subject.target.attrs);
            if label::dependency_nodes(subject.ctk, labels, f.repos@.dom()) is Ok {
                lemma_dependencies_are_akin(subject.ctk, labels, f.repos@.dom());
            }
        }
    }
}

/// Requests for nodes in the dimensions of a target are such requests.
proof fn lemma_requests_are_akin(ctk: KeyView, missing: Seq<NodeKeyView>)
    requires
        all_akin(ctk, missing),
    ensures
        asks_akin(ctk, stage::target_requests(missing)),
{
    let requests = stage::target_requests(missing);
    assert forall|i: int| 0 <= i < requests.len() implies (
    #[trigger] requests[i] matches RequestView::Target(node) ==> akin(ctk, node)) by {
        assert(akin(ctk, missing[i]));
    }
}

/// A step that belongs to a target leads to one that does.
#[verifier::rlimit(30)]
proof fn lemma_next_is_threaded(f: ConfiguredTargetFn, w: World, ctk: KeyView, s: StepView)
    requires
        threaded(ctk, s),
    ensures
        threaded(ctk, next(f, w, s)),
{
    match s {
        StepView::Package { .. } => {
            if let DemandView::Ready(NodeValueView::Package(targets)) = (w.nodes)(
                RequestView::Package(ctk.package),
            ) {
                if let Some(target) = decl::declared(targets, ctk.name) {
                    lemma_declaration_is_threaded(f, ctk, target);
                }
            }
        },
        StepView::Conditions { keys, .. } => {
            lemma_missing_is_akin(ctk, keys, w.group(keys));
        },
        StepView::RuleModule { subject } => {
            lemma_rule_is_threaded(
                f,
                subject,
                w.module(RequestView::RuleModule(subject.origin.bzl)),
            );
        },
        StepView::Deps { keys, .. } => {
            lemma_missing_is_akin(ctk, keys, w.group(keys));
        },
        StepView::Toolchains { configuration, required, missing, .. } => {
            lemma_requests_are_akin(ctk, missing);
        },
        _ => {},
    }
}

/// A step of a target leads to a result that asks for others in its dimensions only.
proof fn lemma_conclusion_is_threaded(f: ConfiguredTargetFn, w: World, ctk: KeyView, s: StepView)
    requires
        threaded(ctk, s),
    ensures
        threaded(ctk, StepView::Done(concluded(f, w, s))),
    decreases phase(s), remaining(s),
{
    match s {
        StepView::Done(_) => {},
        _ => {
            lemma_next_is_threaded(f, w, ctk, s);
            lemma_conclusion_is_threaded(f, w, ctk, next(f, w, s));
        },
    }
}

/// The dimensions of a target reach everything below it: every configured target that an analysis
/// waits for is one in the dimensions of the target itself.
pub proof fn law_awaited_targets_share_dimensions(
    f: ConfiguredTargetFn,
    w: World,
    ctk: KeyView,
    i: int,
)
    requires
        key::key_fits(ctk),
        analysed(f, w, key::target_node(ctk)) matches ResultView::Missing(requests) && 0 <= i
            < requests.len() && requests[i] is Target,
    ensures
        analysed(f, w, key::target_node(ctk)) matches ResultView::Missing(requests)
            && requests[i] matches RequestView::Target(node) && akin(ctk, node),
{
    key::law_decode_undoes_encode(ctk, Seq::empty());
    assert(key::key_bytes(ctk) + Seq::empty() =~= key::key_bytes(ctk));
    lemma_conclusion_is_threaded(
        f,
        w,
        ctk,
        analysis::after_start(key::target_node(ctk)),
    );
}

// ---- Laws of the loads ----

/// Every load reaches the rule: where each has a path and its module is built, the rule is run on one
/// module for each load, under the text by which it is loaded and in the order of the loads.
pub proof fn law_every_load_reaches_the_rule(
    f: ConfiguredTargetFn,
    w: World,
    inputs: InputsView,
    source: Seq<char>,
    loads: Seq<Seq<char>>,
    paths: Seq<Seq<char>>,
    loaded: Seq<(Seq<char>, Seq<(Seq<char>, ValueView)>)>,
)
    requires
        (w.scan)(source) == Ok::<Seq<Seq<char>>, Seq<char>>(loads),
        paths.len() == loads.len(),
        loaded.len() == loads.len(),
        forall|i: int| 0 <= i < loads.len() ==> (#[trigger] loaded[i]).0 == loads[i],
        forall|i: int|
            0 <= i < loads.len() ==> (w.load_path)(
                label::repo_of(inputs.subject.origin.bzl),
                inputs.subject.origin.bzl,
                #[trigger] loads[i],
            ) == Ok::<Seq<char>, ErrorView>(paths[i]),
        forall|i: int|
            0 <= i < loads.len() ==> w.module(
                RequestView::LoadedModule {
                    path: #[trigger] paths[i],
                    context: label::repo_of(paths[i]),
                },
            ) == Ok::<DemandView, ErrorView>(
                DemandView::Ready(NodeValueView::Module(loaded[i].1)),
            ),
    ensures
        concluded(f, w, StepView::Scan { inputs, source }) == (match (w.evaluate)(
            inputs,
            source,
            loaded,
        ) {
            Ok(x) => ResultView::Ready(
                target::TargetView {
                    providers: x.providers,
                    actions: x.actions,
                    dep_outputs: inputs.deps.outputs,
                    visibility: visibility::visibility_of(inputs.subject.target),
                },
            ),
            Err(why) => ResultView::Error(
                ErrorView::Invalid { what: "rule evaluation"@, detail: why },
            ),
        }),
{
    let s = next(f, w, StepView::Scan { inputs, source });
    assert(concluded(f, w, StepView::Scan { inputs, source }) == concluded(f, w, s));
    assert(loads.skip(0) =~= loads);
    assert(loaded.take(0) =~= Seq::empty());
    lemma_loads_are_run(f, w, inputs, source, loads, paths, loaded, 0);
}

/// The loads from some position on are collected and the rule is run.
proof fn lemma_loads_are_run(
    f: ConfiguredTargetFn,
    w: World,
    inputs: InputsView,
    source: Seq<char>,
    loads: Seq<Seq<char>>,
    paths: Seq<Seq<char>>,
    loaded: Seq<(Seq<char>, Seq<(Seq<char>, ValueView)>)>,
    n: int,
)
    requires
        0 <= n <= loads.len(),
        paths.len() == loads.len(),
        loaded.len() == loads.len(),
        forall|i: int| 0 <= i < loads.len() ==> (#[trigger] loaded[i]).0 == loads[i],
        forall|i: int|
            0 <= i < loads.len() ==> (w.load_path)(
                label::repo_of(inputs.subject.origin.bzl),
                inputs.subject.origin.bzl,
                #[trigger] loads[i],
            ) == Ok::<Seq<char>, ErrorView>(paths[i]),
        forall|i: int|
            0 <= i < loads.len() ==> w.module(
                RequestView::LoadedModule {
                    path: #[trigger] paths[i],
                    context: label::repo_of(paths[i]),
                },
            ) == Ok::<DemandView, ErrorView>(
                DemandView::Ready(NodeValueView::Module(loaded[i].1)),
            ),
    ensures
        concluded(
            f,
            w,
            evaluation::next_load(
                inputs,
                source,
                LoadsView { loaded: loaded.take(n), missing: Seq::empty(), rest: loads.skip(n) },
            ),
        ) == evaluation::after_evaluation(inputs, (w.evaluate)(inputs, source, loaded)),
    decreases loads.len() - n,
{
    let s = evaluation::next_load(
        inputs,
        source,
        LoadsView { loaded: loaded.take(n), missing: Seq::empty(), rest: loads.skip(n) },
    );
    if n < loads.len() {
        lemma_loads_are_run(f, w, inputs, source, loads, paths, loaded, n + 1);
        assert(loads.skip(n).drop_first() =~= loads.skip(n + 1));
        assert(loads.skip(n)[0] == loads[n]);
        assert(loaded.take(n).push(loaded[n]) =~= loaded.take(n + 1));
        assert(loaded[n] == (loads[n], loaded[n].1));
        let found = next(f, w, s);
        assert(concluded(f, w, s) == concluded(f, w, found));
        assert(found is Load && found->Load_path == paths[n]);
        let after = next(f, w, found);
        assert(concluded(f, w, found) == concluded(f, w, after));
    } else {
        assert(loaded.take(n) =~= loaded);
        let end = next(f, w, s);
        assert(concluded(f, w, s) == concluded(f, w, end));
    }
}

/// A target that a rule makes is what its rule yields: where all of its dependencies are built, it
/// has the outputs that the edges to them give, in the order in which the rule names them.
pub proof fn law_dependencies_reach_the_source(
    f: ConfiguredTargetFn,
    w: World,
    subject: SubjectView,
    labels: Seq<Seq<char>>,
    keys: Seq<NodeKeyView>,
    deps: stage::GatheredView,
)
    requires
        forall|i: int|
            0 <= i < keys.len() ==> !w.lacks(RequestView::Target(#[trigger] keys[i])),
        dependencies::gathered(subject.ctk, labels, keys, w.group(keys)) == Ok::<
            stage::GatheredView,
            ErrorView,
        >(deps),
    ensures
        next(f, w, StepView::Deps { subject, required: Seq::empty(), labels, keys }) == (
        StepView::Source { inputs: InputsView { subject, deps, toolchains: Seq::empty() } }),
{
    let demands = w.group(keys);
    assert forall|i: int| 0 <= i < demands.len() implies !(#[trigger] demands[i] is Missing) by {
        assert(!w.lacks(RequestView::Target(keys[i])));
    }
    dependencies::law_toolchains_take_a_configuration(
        subject,
        Seq::empty(),
        labels,
        keys,
        demands,
    );
}

// ---- Laws of the answers ----

/// An analysis starts where its course starts.
pub proof fn law_analyses_start_their_course(f: ConfiguredTargetFn, k: NodeKey, r: Step)
    requires
        call_ensures(ConfiguredTargetFn::start, (&f, &k), r),
    ensures
        forall|w: World| #[trigger] concluded(f, w, r@) == analysed(f, w, k@),
{
}

/// A step that is answered as the build graph stands leads to the next step of the course: the
/// package, what an alias stands for, the conditions and the file of the rule.
pub proof fn law_declarations_follow_the_course(
    f: ConfiguredTargetFn,
    w: World,
    p: AwaitPackage,
    a: AwaitActual,
    c: AwaitConditions,
    l: AwaitRuleFile,
    d: Demand,
    demands: Vec<Demand>,
    r: Step,
)
    ensures
        call_ensures(AwaitPackage::answer, (p, &f, d), r) && d@ == (w.nodes)(
            RequestView::Package(p.ctk.package@),
        ) ==> r@ == next(f, w, Step::Package(p)@),
        call_ensures(AwaitActual::answer, (a, d), r) && d@ == (w.nodes)(
            RequestView::Target(a.node@),
        ) ==> r@ == next(f, w, Step::Actual(a)@),
        call_ensures(AwaitConditions::answer, (c, &f, demands), r) && seqs::views(demands@)
            == w.group(seqs::views(c.keys@)) ==> r@ == next(f, w, Step::Conditions(c)@),
        call_ensures(AwaitRuleFile::answer, (l, d), r) && d@ == (w.nodes)(
            RequestView::File(l.subject.origin.bzl@),
        ) ==> r@ == next(f, w, Step::RuleFile(l)@),
{
}

/// A step that is answered as the build graph stands leads to the next step of the course: the module
/// of the rule, the dependencies and the toolchains.
pub proof fn law_dependencies_follow_the_course(
    f: ConfiguredTargetFn,
    w: World,
    m: AwaitRuleModule,
    x: AwaitDeps,
    t: AwaitToolchains,
    answer: Result<Demand, Error>,
    demands: Vec<Demand>,
    request: Request,
    d: Demand,
    r: Step,
)
    ensures
        call_ensures(AwaitRuleModule::answer, (m, &f, answer), r) && error::outcome(answer)
            == w.module(RequestView::RuleModule(m.subject.origin.bzl@)) ==> r@ == next(
            f,
            w,
            Step::RuleModule(m)@,
        ),
        call_ensures(AwaitDeps::answer, (x, demands), r) && seqs::views(demands@) == w.group(
            seqs::views(x.keys@),
        ) ==> r@ == next(f, w, Step::Deps(x)@),
        call_ensures(AwaitToolchains::request, (&t,), request) && call_ensures(
            AwaitToolchains::answer,
            (t, d),
            r,
        ) && d@ == (w.nodes)(request@) ==> r@ == next(f, w, Step::Toolchains(t)@),
{
}

/// A step that is answered as the caller finds it leads to the next step of the course: the source,
/// the search for loads, the path of a load, its module and the run of the rule.
pub proof fn law_evaluations_follow_the_course(
    f: ConfiguredTargetFn,
    w: World,
    s: AwaitSource,
    read: SourceRead,
    c: AwaitScan,
    targets: Result<Vec<String>, String>,
    p: AwaitLoadPath,
    path: Result<String, Error>,
    l: AwaitLoad,
    answer: Result<Demand, Error>,
    e: AwaitEvaluation,
    result: Result<RuleResult, String>,
    r: Step,
)
    ensures
        call_ensures(AwaitSource::answer, (s, read), r) && read@ == (w.source)(
            s.inputs.subject.origin.bzl@,
        ) ==> r@ == next(f, w, Step::Source(s)@),
        call_ensures(AwaitScan::answer, (c, targets), r) && evaluation::scanned(targets)
            == (w.scan)(c.source@) ==> r@ == next(f, w, Step::Scan(c)@),
        call_ensures(AwaitLoadPath::answer, (p, path), r) && error::outcome(path) == (w.load_path)(
            label::repo_of(p.inputs.subject.origin.bzl@),
            p.inputs.subject.origin.bzl@,
            p.load@,
        ) ==> r@ == next(f, w, Step::LoadPath(p)@),
        call_ensures(AwaitLoad::answer, (l, answer), r) && error::outcome(answer) == w.module(
            RequestView::LoadedModule { path: l.path@, context: label::repo_of(l.path@) },
        ) ==> r@ == next(f, w, Step::Load(l)@),
        call_ensures(AwaitEvaluation::answer, (e, result), r) && evaluation::run(result)
            == (w.evaluate)(e.inputs@, e.source@, stage::modules(e.loaded@)) ==> r@ == next(
            f,
            w,
            Step::Evaluation(e)@,
        ),
{
}

} // verus!
