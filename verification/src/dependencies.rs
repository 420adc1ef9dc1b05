//! The steps of an analysis that lead from the rule of a target to its dependencies and toolchains.

use vstd::prelude::*;
use crate::analysis::{self, follow_edge, ConfiguredTargetFn};
use crate::error::{self, invalid, Error, ErrorView};
use crate::key::{self, ConfiguredTargetKey, KeyView, NodeKey, NodeKeyView};
use crate::label::{self, resolve_deps};
use crate::node::{
    self, missing_keys, ContextKeyView, Demand, DemandView, NodeValue, NodeValueView, Request,
    RequestView, ToolchainContextKey, ToolchainTypeReq, TypeReqView,
};
use crate::outside::{self, list_text};
use crate::seqs;
use crate::stage::{
    self, failed, waits_for, AwaitDeps, AwaitRuleModule, AwaitSource, AwaitToolchains,
    ComputeResult, DepProviders, DepProvidersView, Gathered, GatheredView, Inputs, InputsView,
    ResolvedToolchain, ResultView, Step, StepView, SubjectView, ToolchainView,
};
use crate::string_map::StringMap;
use crate::target::{self, DepOutput, DepOutputView, TargetView};
use crate::text;
use crate::value::{self, find_named, labels_of, AttrType, BzlValue, ValueView};
use crate::visibility;

verus! {

// ---- The rule ----

/// The labels that the label attributes of a rule name in a target, in the order of the rule.
pub open spec fn named_deps(
    schema: Seq<(Seq<char>, AttrType)>,
    attrs: Seq<(Seq<char>, ValueView)>,
) -> Seq<Seq<char>>
    decreases schema.len(),
{
    if schema.len() == 0 {
        Seq::empty()
    } else {
        let (name, ty) = schema.last();
        named_deps(schema.drop_last(), attrs) + (match value::lookup(attrs, name) {
            Some(v) => if ty is Label {
                value::labels_in(v)
            } else {
                Seq::empty()
            },
            None => Seq::empty(),
        })
    }
}

/// The labels that the label attributes of a rule name in a target.
pub fn dependency_labels(schema: &Vec<(String, AttrType)>, attrs: &Vec<(String, BzlValue)>) -> (r:
    Vec<String>)
    ensures
        text::texts(r@) == named_deps(
            schema@.map_values(|a: (String, AttrType)| (a.0@, a.1)),
            value::named_view(attrs@),
        ),
{
    let ghost all = schema@.map_values(|a: (String, AttrType)| (a.0@, a.1));
    let ghost values = value::named_view(attrs@);
    let mut r: Vec<String> = Vec::new();
    assert(text::texts(r@) =~= named_deps(all.take(0), values));
    for i in 0..schema.len()
        invariant
            all == schema@.map_values(|a: (String, AttrType)| (a.0@, a.1)),
            values == value::named_view(attrs@),
            text::texts(r@) == named_deps(all.take(i as int), values),
    {
        let ghost before = text::texts(r@);
        assert(all.take(i + 1).drop_last() =~= all.take(i as int));
        assert(all.take(i + 1).last() == (schema@[i as int].0@, schema@[i as int].1));
        if schema[i].1.is_label() {
            if let Some(v) = find_named(attrs, &schema[i].0) {
                let mut labels = labels_of(v);
                let ghost these = text::texts(labels@);
                r.append(&mut labels);
                assert(text::texts(r@) =~= before + these);
            }
        }
        assert(text::texts(r@) =~= named_deps(all.take(i + 1), values));
    }
    assert(all.take(schema@.len() as int) =~= all);
    r
}

/// The step after the module of the rule is answered.
pub open spec fn after_rule_module(
    f: ConfiguredTargetFn,
    subject: SubjectView,
    d: Result<DemandView, ErrorView>,
) -> StepView {
    match d {
        Err(e) => StepView::Done(ResultView::Error(e)),
        Ok(DemandView::Missing) => StepView::Done(
            ResultView::Missing(seq![RequestView::RuleModule(subject.origin.bzl)]),
        ),
        Ok(DemandView::Ready(NodeValueView::Module(exports))) => match value::lookup(
            exports,
            subject.origin.name,
        ) {
            Some(ValueView::Rule(rule)) => {
                let labels = named_deps(rule.attrs, subject.target.attrs);
                match label::dependency_nodes(subject.ctk, labels, f.repos@.dom()) {
                    Ok(keys) => StepView::Deps { subject, required: rule.toolchains, labels, keys },
                    Err(e) => StepView::Done(ResultView::Error(e)),
                }
            },
            _ => StepView::Done(
                ResultView::Error(
                    ErrorView::Invalid {
                        what: "rule definition"@,
                        detail: "'"@ + subject.origin.name + "' is not a rule in "@
                            + subject.origin.bzl,
                    },
                ),
            ),
        },
        Ok(DemandView::Ready(_)) => StepView::Done(
            ResultView::Error(
                ErrorView::Invalid { what: "BZL_LOAD value"@, detail: "not a BzlModuleValue"@ },
            ),
        ),
    }
}

impl AwaitRuleModule {
    /// The node that is asked for.
    pub fn request(&self) -> (r: Request)
        ensures
            r@ == RequestView::RuleModule(self.subject@.origin.bzl),
    {
        Request::RuleModule(self.subject.origin.bzl.clone())
    }

    /// Goes on with the module of the rule, or with the failure to ask for it.
    pub fn answer(self, f: &ConfiguredTargetFn, d: Result<Demand, Error>) -> (r: Step)
        ensures
            r@ == after_rule_module(*f, self.subject@, error::outcome(d)),
            r.wf(),
    {
        let subject = self.subject;
        match d {
            Err(e) => failed(e),
            Ok(Demand::Missing) => waits_for(Request::RuleModule(subject.origin.bzl)),
            Ok(Demand::Ready(NodeValue::Module(module))) => {
                if let Some(v) = module.get(&subject.origin.name) {
                    proof {
                        value::lemma_value_view(*v);
                    }
                    if let BzlValue::Rule(rule) = v {
                        let labels = dependency_labels(&rule.attrs, &subject.target.attrs);
                        return match resolve_deps(&subject.ctk, &labels, &f.repos) {
                            Ok(keys) => Step::Deps(
                                AwaitDeps {
                                    subject,
                                    required: text::copy_texts(&rule.toolchains),
                                    labels,
                                    keys,
                                },
                            ),
                            Err(e) => failed(e),
                        };
                    }
                }
                failed(
                    invalid(
                        "rule definition",
                        "'".to_owned().concat(&subject.origin.name).concat(
                            "' is not a rule in ",
                        ).concat(&subject.origin.bzl),
                    ),
                )
            },
            Ok(Demand::Ready(_)) => failed(
                invalid("BZL_LOAD value", "not a BzlModuleValue".to_owned()),
            ),
        }
    }
}

// ---- The dependencies ----

/// What one more answered dependency adds.
pub open spec fn gather_one(
    ctk: KeyView,
    lbl: Seq<char>,
    node: NodeKeyView,
    d: DemandView,
    g: GatheredView,
) -> Result<GatheredView, ErrorView> {
    match d {
        DemandView::Missing => Ok(g),
        DemandView::Ready(NodeValueView::Target(t)) => match analysis::edge(
            ctk,
            lbl,
            node,
            t,
            g.outputs,
        ) {
            Ok(outputs) => Ok(
                GatheredView {
                    providers: g.providers.push(
                        DepProvidersView { label: lbl, providers: t.providers },
                    ),
                    outputs,
                },
            ),
            Err(e) => Err(e),
        },
        DemandView::Ready(_) => Err(
            ErrorView::Invalid {
                what: "CONFIGURED_TARGET dep"@,
                detail: "not a ConfiguredTarget"@,
            },
        ),
    }
}

/// What the dependencies give, as far as they are built, in order. The first that fails decides the
/// failure.
pub open spec fn gathered(
    ctk: KeyView,
    labels: Seq<Seq<char>>,
    keys: Seq<NodeKeyView>,
    demands: Seq<DemandView>,
) -> Result<GatheredView, ErrorView>
    decreases demands.len(),
{
    if demands.len() == 0 {
        Ok(GatheredView { providers: Seq::empty(), outputs: Seq::empty() })
    } else {
        let i = demands.len() - 1;
        match gathered(ctk, labels, keys, demands.drop_last()) {
            Err(e) => Err(e),
            Ok(g) => gather_one(ctk, labels[i], keys[i], demands[i], g),
        }
    }
}

/// A failure among the first dependencies is the failure of all.
proof fn lemma_gathered_prefix(
    ctk: KeyView,
    labels: Seq<Seq<char>>,
    keys: Seq<NodeKeyView>,
    demands: Seq<DemandView>,
    n: int,
)
    requires
        0 <= n <= demands.len(),
        gathered(ctk, labels, keys, demands.take(n)) is Err,
    ensures
        gathered(ctk, labels, keys, demands) == gathered(ctk, labels, keys, demands.take(n)),
    decreases demands.len() - n,
{
    if n < demands.len() {
        assert(demands.take(n + 1).drop_last() =~= demands.take(n));
        lemma_gathered_prefix(ctk, labels, keys, demands, n + 1);
    } else {
        assert(demands.take(n) =~= demands);
    }
}

/// What the dependencies give, as far as they are built.
fn gather(
    ctk: &ConfiguredTargetKey,
    labels: &Vec<String>,
    keys: &Vec<NodeKey>,
    demands: Vec<Demand>,
) -> (r: Result<Gathered, Error>)
    requires
        labels@.len() == keys@.len(),
        demands@.len() <= keys@.len(),
    ensures
        error::outcome(r) == gathered(
            ctk@,
            text::texts(labels@),
            seqs::views(keys@),
            seqs::views(demands@),
        ),
{
    let ghost ls = text::texts(labels@);
    let ghost ks = seqs::views(keys@);
    let ghost ds = seqs::views(demands@);
    let mut providers: Vec<DepProviders> = Vec::new();
    let mut outputs: Vec<DepOutput> = Vec::new();
    let mut i: usize = 0;
    assert(seqs::views(providers@) =~= Seq::empty());
    assert(seqs::views(outputs@) =~= Seq::empty());
    assert(keys@.len() == keys.len());
    for d in it: demands
        invariant
            labels@.len() == keys@.len(),
            ds.len() <= keys@.len() <= usize::MAX,
            ls == text::texts(labels@),
            ks == seqs::views(keys@),
            ds == seqs::views(it.seq()),
            i == it.index(),
            gathered(ctk@, ls, ks, ds.take(i as int)) == Ok::<GatheredView, ErrorView>(
                GatheredView {
                    providers: seqs::views(providers@),
                    outputs: seqs::views(outputs@),
                },
            ),
    {
        proof {
            assert(ds.take(i + 1).drop_last() =~= ds.take(i as int));
            assert(ds[i as int] == d@);
            assert(ds.take(i + 1)[i as int] == d@);
            assert(ls[i as int] == labels@[i as int]@ && ks[i as int] == keys@[i as int]@);
        }
        match d {
            Demand::Missing => {},
            Demand::Ready(NodeValue::Target(t)) => {
                if let Err(e) = follow_edge(ctk, &labels[i], &keys[i], &t, &mut outputs) {
                    proof {
                        lemma_gathered_prefix(ctk@, ls, ks, ds, i + 1);
                    }
                    return Err(e);
                }
                let ghost before = seqs::views(providers@);
                let dep = DepProviders { label: labels[i].clone(), providers: t.providers };
                providers.push(dep);
                assert(seqs::views(providers@) =~= before.push(dep@));
            },
            Demand::Ready(_) => {
                proof {
                    lemma_gathered_prefix(ctk@, ls, ks, ds, i + 1);
                }
                return Err(invalid("CONFIGURED_TARGET dep", "not a ConfiguredTarget".to_owned()));
            },
        }
        i += 1;
    }
    assert(ds.take(ds.len() as int) =~= ds);
    Ok(Gathered { providers, outputs })
}

/// The step after the dependencies are answered: the toolchains are asked for, where the rule
/// requires any. That takes a configuration.
pub open spec fn after_deps(
    subject: SubjectView,
    required: Seq<Seq<char>>,
    labels: Seq<Seq<char>>,
    keys: Seq<NodeKeyView>,
    demands: Seq<DemandView>,
) -> StepView {
    let missing = node::missing_among(keys, demands);
    match gathered(subject.ctk, labels, keys, demands) {
        Err(e) => StepView::Done(ResultView::Error(e)),
        Ok(deps) => if required.len() == 0 {
            after_toolchains(
                InputsView { subject, deps, toolchains: Seq::empty() },
                stage::target_requests(missing),
            )
        } else {
            match subject.ctk.configuration {
                Some(configuration) => StepView::Toolchains {
                    subject,
                    configuration,
                    required,
                    missing,
                    deps,
                },
                None => StepView::Done(
                    ResultView::Error(
                        ErrorView::Unsupported {
                            what: "toolchain resolution"@,
                            detail: "target '"@ + subject.ctk.package + ":"@ + subject.ctk.name
                                + "' requires toolchains "@ + outside::listed(required)
                                + " but has no configuration"@,
                        },
                    ),
                ),
            }
        },
    }
}

/// The step after the toolchains are resolved: what is missing is waited for, else the source of the
/// rule is read.
pub open spec fn after_toolchains(inputs: InputsView, missing: Seq<RequestView>) -> StepView {
    if missing.len() > 0 {
        StepView::Done(ResultView::Missing(missing))
    } else {
        StepView::Source { inputs }
    }
}

/// The step after the toolchains are resolved.
fn toolchains_resolved(inputs: Inputs, missing: Vec<Request>) -> (r: Step)
    ensures
        r@ == after_toolchains(inputs@, seqs::views(missing@)),
        r.wf(),
{
    if missing.len() > 0 {
        Step::Done(ComputeResult::Missing(missing))
    } else {
        Step::Source(AwaitSource { inputs })
    }
}

impl AwaitDeps {
    /// Goes on with the dependencies, which are answered in order.
    pub fn answer(self, demands: Vec<Demand>) -> (r: Step)
        requires
            self.wf(),
            demands@.len() <= self.keys@.len(),
        ensures
            r@ == after_deps(
                self.subject@,
                text::texts(self.required@),
                text::texts(self.labels@),
                seqs::views(self.keys@),
                seqs::views(demands@),
            ),
            r.wf(),
    {
        let missing = missing_keys(&self.keys, &demands);
        let deps = match gather(&self.subject.ctk, &self.labels, &self.keys, demands) {
            Ok(g) => g,
            Err(e) => {
                return failed(e);
            },
        };
        let subject = self.subject;
        if self.required.len() == 0 {
            let toolchains: Vec<ResolvedToolchain> = Vec::new();
            assert(seqs::views(toolchains@) =~= Seq::empty());
            return toolchains_resolved(
                Inputs { subject, deps, toolchains },
                stage::requests_for(missing),
            );
        }
        match text::copy_optional(&subject.ctk.configuration) {
            Some(configuration) => Step::Toolchains(
                AwaitToolchains { subject, configuration, required: self.required, missing, deps },
            ),
            None => failed(
                Error::Unsupported {
                    what: "toolchain resolution",
                    detail: "target '".to_owned().concat(&subject.ctk.package).concat(":").concat(
                        &subject.ctk.name,
                    ).concat("' requires toolchains ").concat(&list_text(&self.required)).concat(
                        " but has no configuration",
                    ),
                },
            ),
        }
    }
}

// ---- The toolchains ----

/// The request for the toolchains of a configuration: every required type is mandatory.
pub open spec fn toolchain_request(configuration: Seq<char>, required: Seq<Seq<char>>) -> RequestView {
    RequestView::Toolchains(
        ContextKeyView {
            configuration,
            types: required.map_values(
                |ty: Seq<char>| TypeReqView { toolchain_type: ty, mandatory: true },
            ),
            exec_constraints: Seq::empty(),
            force_exec_platform: None,
            debug_target: false,
        },
    )
}

/// The failure of a required toolchain type that was not resolved.
pub open spec fn toolchain_absent(ty: Seq<char>) -> ErrorView {
    ErrorView::Invalid {
        what: "TOOLCHAIN_CONTEXT value"@,
        detail: "mandatory toolchain type '"@ + ty + "' absent from the resolved context"@,
    }
}

/// The toolchains of the required types, in order. The first that is absent decides the failure.
pub open spec fn toolchains_of(required: Seq<Seq<char>>, m: Map<Seq<char>, ValueView>) -> Result<
    Seq<ToolchainView>,
    ErrorView,
> {
    match seqs::first(required, |ty: Seq<char>| !m.dom().contains(ty)) {
        Some(ty) => Err(toolchain_absent(ty)),
        None => Ok(
            required.map_values(|ty: Seq<char>| ToolchainView { toolchain_type: ty, info: m[ty] }),
        ),
    }
}

/// The toolchains of the required types.
fn pick_toolchains(required: &Vec<String>, m: &StringMap<BzlValue>) -> (r: Result<
    Vec<ResolvedToolchain>,
    Error,
>)
    ensures
        toolchains_of(text::texts(required@), node::value_map(m@)) == (match r {
            Ok(list) => Ok::<Seq<ToolchainView>, ErrorView>(seqs::views(list@)),
            Err(e) => Err::<Seq<ToolchainView>, ErrorView>(e@),
        }),
{
    let ghost all = text::texts(required@);
    let ghost vm = node::value_map(m@);
    let ghost p = |ty: Seq<char>| !vm.dom().contains(ty);
    let ghost f = |ty: Seq<char>| ToolchainView { toolchain_type: ty, info: vm[ty] };
    let mut r: Vec<ResolvedToolchain> = Vec::new();
    assert(seqs::views(r@) =~= all.take(0).map_values(f));
    for i in 0..required.len()
        invariant
            all == text::texts(required@),
            vm == node::value_map(m@),
            p == (|ty: Seq<char>| !vm.dom().contains(ty)),
            f == (|ty: Seq<char>| ToolchainView { toolchain_type: ty, info: vm[ty] }),
            forall|j: int| 0 <= j < i ==> !p(#[trigger] all[j]),
            seqs::views(r@) == all.take(i as int).map_values(f),
    {
        match m.get(&required[i]) {
            Some(info) => {
                let ghost before = seqs::views(r@);
                let t = ResolvedToolchain {
                    toolchain_type: required[i].clone(),
                    info: info.clone(),
                };
                r.push(t);
                assert(t@ == f(all[i as int]));
                assert(seqs::views(r@) =~= before.push(t@));
                assert(all.take(i + 1).map_values(f) =~= before.push(t@));
            },
            None => {
                proof {
                    assert(p(all[i as int]));
                    assert(seqs::first_where(all, p, i as int));
                    seqs::lemma_first_at(all, p, i as int);
                }
                return Err(
                    invalid(
                        "TOOLCHAIN_CONTEXT value",
                        "mandatory toolchain type '".to_owned().concat(&required[i]).concat(
                            "' absent from the resolved context",
                        ),
                    ),
                );
            },
        }
    }
    assert(all.take(required@.len() as int) =~= all);
    Ok(r)
}

/// The step after the toolchains are answered. Dependencies that are missing are waited for together
/// with missing toolchains.
pub open spec fn after_toolchain_answer(
    subject: SubjectView,
    configuration: Seq<char>,
    required: Seq<Seq<char>>,
    missing: Seq<NodeKeyView>,
    deps: GatheredView,
    d: DemandView,
) -> StepView {
    match d {
        DemandView::Missing => StepView::Done(
            ResultView::Missing(
                stage::target_requests(missing).push(toolchain_request(configuration, required)),
            ),
        ),
        DemandView::Ready(NodeValueView::Toolchains(m)) => match toolchains_of(required, m) {
            Err(e) => StepView::Done(ResultView::Error(e)),
            Ok(toolchains) => after_toolchains(
                InputsView { subject, deps, toolchains },
                stage::target_requests(missing),
            ),
        },
        DemandView::Ready(_) => StepView::Done(
            ResultView::Error(
                ErrorView::Invalid {
                    what: "TOOLCHAIN_CONTEXT dep"@,
                    detail: "not a ResolvedToolchainContextValue"@,
                },
            ),
        ),
    }
}

impl AwaitToolchains {
    /// The node that is asked for.
    pub fn request(&self) -> (r: Request)
        ensures
            r@ == toolchain_request(self.configuration@, text::texts(self.required@)),
    {
        let ghost all = text::texts(self.required@);
        let ghost f = |ty: Seq<char>| TypeReqView { toolchain_type: ty, mandatory: true };
        let mut types: Vec<ToolchainTypeReq> = Vec::new();
        for i in 0..self.required.len()
            invariant
                types@.len() == i,
                forall|j: int|
                    0 <= j < i ==> (#[trigger] types@[j])@ == (TypeReqView {
                        toolchain_type: self.required@[j]@,
                        mandatory: true,
                    }),
        {
            types.push(
                ToolchainTypeReq { toolchain_type: self.required[i].clone(), mandatory: true },
            );
        }
        let exec_constraints: Vec<String> = Vec::new();
        assert(text::texts(exec_constraints@) =~= Seq::empty());
        assert(seqs::views(types@) =~= all.map_values(f));
        Request::Toolchains(
            ToolchainContextKey {
                configuration: self.configuration.clone(),
                types,
                exec_constraints,
                force_exec_platform: None,
                debug_target: false,
            },
        )
    }

    /// Goes on with the toolchains.
    pub fn answer(self, d: Demand) -> (r: Step)
        ensures
            r@ == after_toolchain_answer(
                self.subject@,
                self.configuration@,
                text::texts(self.required@),
                seqs::views(self.missing@),
                self.deps@,
                d@,
            ),
            r.wf(),
    {
        match d {
            Demand::Missing => {
                let request = self.request();
                let mut missing = stage::requests_for(self.missing);
                let ghost before = seqs::views(missing@);
                missing.push(request);
                assert(seqs::views(missing@) =~= before.push(request@));
                Step::Done(ComputeResult::Missing(missing))
            },
            Demand::Ready(NodeValue::Toolchains(m)) => match pick_toolchains(&self.required, &m) {
                Ok(toolchains) => toolchains_resolved(
                    Inputs { subject: self.subject, deps: self.deps, toolchains },
                    stage::requests_for(self.missing),
                ),
                Err(e) => failed(e),
            },
            Demand::Ready(_) => failed(
                invalid(
                    "TOOLCHAIN_CONTEXT dep",
                    "not a ResolvedToolchainContextValue".to_owned(),
                ),
            ),
        }
    }
}

// ---- Laws of dependencies ----

/// Every dependency that counts is visible: none gets past the check of its edge.
pub proof fn law_dependencies_are_admitted(
    ctk: KeyView,
    labels: Seq<Seq<char>>,
    keys: Seq<NodeKeyView>,
    demands: Seq<DemandView>,
    i: int,
)
    requires
        gathered(ctk, labels, keys, demands) is Ok,
        0 <= i < demands.len(),
        demands[i] is Ready,
    ensures
        demands[i] matches DemandView::Ready(NodeValueView::Target(t)) && key::decoded(
            keys[i].bytes,
        ) matches Ok(dep) && visibility::admitted(
            ctk.package,
            dep.package,
            label::rendered(ctk.package, ctk.name),
            labels[i],
            t.visibility,
        ) is Ok,
    decreases demands.len(),
{
    if i < demands.len() - 1 {
        assert(demands.drop_last()[i] == demands[i]);
        law_dependencies_are_admitted(ctk, labels, keys, demands.drop_last(), i);
    }
}

/// A path names one producer: no path stands twice in the map that a target has of the outputs of
/// its dependencies.
pub proof fn law_dependency_outputs_are_distinct(
    ctk: KeyView,
    labels: Seq<Seq<char>>,
    keys: Seq<NodeKeyView>,
    demands: Seq<DemandView>,
)
    requires
        gathered(ctk, labels, keys, demands) is Ok,
    ensures
        target::paths_distinct(gathered(ctk, labels, keys, demands)->Ok_0.outputs),
    decreases demands.len(),
{
    if demands.len() > 0 {
        let i = demands.len() - 1;
        law_dependency_outputs_are_distinct(ctk, labels, keys, demands.drop_last());
        let g = gathered(ctk, labels, keys, demands.drop_last())->Ok_0;
        if let DemandView::Ready(NodeValueView::Target(t)) = demands[i] {
            let dep = key::decoded(keys[i].bytes)->Ok_0;
            target::law_one_producer_per_path(g.outputs, target::contribution(dep, t), ctk);
        }
    }
}

/// The outputs of a dependency lead to their producers: the path of an output of one of its own
/// actions, or of one of its dependencies, leads to the entry that the dependency has for it.
pub proof fn law_dependency_outputs_are_chained(
    ctk: KeyView,
    labels: Seq<Seq<char>>,
    keys: Seq<NodeKeyView>,
    demands: Seq<DemandView>,
    i: int,
    t: TargetView,
    dep: KeyView,
    x: DepOutputView,
)
    requires
        gathered(ctk, labels, keys, demands) is Ok,
        0 <= i < demands.len(),
        demands[i] == DemandView::Ready(NodeValueView::Target(t)),
        key::decoded(keys[i].bytes) == Ok::<KeyView, ErrorView>(dep),
        target::contribution(dep, t).contains(x),
    ensures
        target::leads_to(gathered(ctk, labels, keys, demands)->Ok_0.outputs, x),
    decreases demands.len(),
{
    let n = demands.len() - 1;
    let g = gathered(ctk, labels, keys, demands.drop_last())->Ok_0;
    if i < n {
        assert(demands.drop_last()[i] == demands[i]);
        law_dependency_outputs_are_chained(
            ctk,
            labels,
            keys,
            demands.drop_last(),
            i,
            t,
            dep,
            x,
        );
        if let DemandView::Ready(NodeValueView::Target(u)) = demands[n] {
            let last = key::decoded(keys[n].bytes)->Ok_0;
            target::law_entries_are_kept(g.outputs, target::contribution(last, u), ctk, x);
        }
    } else {
        target::law_entries_are_kept(g.outputs, target::contribution(dep, t), ctk, x);
    }
}

/// Whether the dependency at position `i` is built and contributes an entry.
pub open spec fn contributes(
    keys: Seq<NodeKeyView>,
    demands: Seq<DemandView>,
    i: int,
    x: DepOutputView,
) -> bool {
    &&& 0 <= i < demands.len()
    &&& demands[i] matches DemandView::Ready(NodeValueView::Target(t))
    &&& key::decoded(keys[i].bytes) matches Ok(dep)
    &&& target::contribution(dep, t).contains(x)
}

/// A target has no outputs but those of its dependencies: every entry of its map is contributed by
/// one of them.
pub proof fn law_outputs_come_from_dependencies(
    ctk: KeyView,
    labels: Seq<Seq<char>>,
    keys: Seq<NodeKeyView>,
    demands: Seq<DemandView>,
    x: DepOutputView,
)
    requires
        gathered(ctk, labels, keys, demands) is Ok,
        gathered(ctk, labels, keys, demands)->Ok_0.outputs.contains(x),
    ensures
        exists|i: int| contributes(keys, demands, i, x),
    decreases demands.len(),
{
    if demands.len() > 0 {
        let n = demands.len() - 1;
        let before = demands.drop_last();
        let g = gathered(ctk, labels, keys, before)->Ok_0;
        if g.outputs.contains(x) {
            law_outputs_come_from_dependencies(ctk, labels, keys, before, x);
            let i = choose|i: int| contributes(keys, before, i, x);
            assert(before[i] == demands[i]);
            assert(contributes(keys, demands, i, x));
        } else if let DemandView::Ready(NodeValueView::Target(t)) = demands[n] {
            let dep = key::decoded(keys[n].bytes)->Ok_0;
            target::law_only_entries_are_added(g.outputs, target::contribution(dep, t), ctk, x);
            assert(contributes(keys, demands, n, x));
        }
    }
}

/// Whether the dependency at position `i` is not built, or is a configured target with a readable
/// key that is visible.
pub open spec fn acceptable(
    ctk: KeyView,
    labels: Seq<Seq<char>>,
    keys: Seq<NodeKeyView>,
    demands: Seq<DemandView>,
    i: int,
) -> bool {
    match demands[i] {
        DemandView::Missing => true,
        DemandView::Ready(NodeValueView::Target(t)) => match key::decoded(keys[i].bytes) {
            Ok(dep) => visibility::admitted(
                ctk.package,
                dep.package,
                label::rendered(ctk.package, ctk.name),
                labels[i],
                t.visibility,
            ) is Ok,
            Err(_) => false,
        },
        DemandView::Ready(_) => false,
    }
}

/// Dependencies that are acceptable one by one fail together by a conflict only.
proof fn lemma_acceptable_fail_by_conflict(
    ctk: KeyView,
    labels: Seq<Seq<char>>,
    keys: Seq<NodeKeyView>,
    demands: Seq<DemandView>,
)
    requires
        forall|i: int|
            0 <= i < demands.len() ==> #[trigger] acceptable(ctk, labels, keys, demands, i),
        gathered(ctk, labels, keys, demands) is Err,
    ensures
        gathered(ctk, labels, keys, demands)->Err_0 is Conflict,
    decreases demands.len(),
{
    if demands.len() > 0 {
        let n = demands.len() - 1;
        let before = demands.drop_last();
        if gathered(ctk, labels, keys, before) is Err {
            assert forall|i: int| 0 <= i < before.len() implies #[trigger] acceptable(
                ctk,
                labels,
                keys,
                before,
                i,
            ) by {
                assert(before[i] == demands[i]);
                assert(acceptable(ctk, labels, keys, demands, i));
            }
            lemma_acceptable_fail_by_conflict(ctk, labels, keys, before);
        } else {
            assert(acceptable(ctk, labels, keys, demands, n));
            let g = gathered(ctk, labels, keys, before)->Ok_0;
            if let DemandView::Ready(NodeValueView::Target(t)) = demands[n] {
                let dep = key::decoded(keys[n].bytes)->Ok_0;
                target::law_merges_fail_by_conflict(g.outputs, target::contribution(dep, t), ctk);
            }
        }
    }
}

/// Two producers of one path among the dependencies are never merged: the analysis fails, and where
/// no dependency is refused for itself, it fails with a conflict.
pub proof fn law_two_producers_among_dependencies_conflict(
    ctk: KeyView,
    labels: Seq<Seq<char>>,
    keys: Seq<NodeKeyView>,
    demands: Seq<DemandView>,
    i: int,
    x: DepOutputView,
    j: int,
    y: DepOutputView,
)
    requires
        contributes(keys, demands, i, x),
        contributes(keys, demands, j, y),
        x.exec_path == y.exec_path,
        x != y,
    ensures
        gathered(ctk, labels, keys, demands) is Err,
        (forall|k: int|
            0 <= k < demands.len() ==> #[trigger] acceptable(ctk, labels, keys, demands, k))
            ==> gathered(ctk, labels, keys, demands)->Err_0 is Conflict,
{
    if gathered(ctk, labels, keys, demands) is Ok {
        let t = demands[i]->Ready_0->Target_0;
        let u = demands[j]->Ready_0->Target_0;
        let a = key::decoded(keys[i].bytes)->Ok_0;
        let b = key::decoded(keys[j].bytes)->Ok_0;
        law_dependency_outputs_are_chained(ctk, labels, keys, demands, i, t, a, x);
        law_dependency_outputs_are_chained(ctk, labels, keys, demands, j, u, b, y);
    } else if forall|k: int|
        0 <= k < demands.len() ==> #[trigger] acceptable(ctk, labels, keys, demands, k) {
        lemma_acceptable_fail_by_conflict(ctk, labels, keys, demands);
    }
}

/// The rule sees the providers of every dependency, each under its label and in the order in which
/// the dependencies are named.
pub proof fn law_providers_are_passed_on(
    ctk: KeyView,
    labels: Seq<Seq<char>>,
    keys: Seq<NodeKeyView>,
    demands: Seq<DemandView>,
)
    requires
        gathered(ctk, labels, keys, demands) is Ok,
        forall|i: int| 0 <= i < demands.len() ==> #[trigger] demands[i] is Ready,
    ensures
        ({
            let providers = gathered(ctk, labels, keys, demands)->Ok_0.providers;
            &&& providers.len() == demands.len()
            &&& forall|i: int|
                0 <= i < demands.len() ==> (#[trigger] providers[i]).label == labels[i] && (
                demands[i] matches DemandView::Ready(NodeValueView::Target(t))
                    && providers[i].providers == t.providers)
        }),
    decreases demands.len(),
{
    if demands.len() > 0 {
        let before = demands.drop_last();
        let n = demands.len() - 1;
        assert forall|i: int| 0 <= i < before.len() implies #[trigger] before[i] is Ready by {
            assert(before[i] == demands[i]);
        }
        law_providers_are_passed_on(ctk, labels, keys, before);
        assert(demands[n] is Ready);
        let old_providers = gathered(ctk, labels, keys, before)->Ok_0.providers;
        let providers = gathered(ctk, labels, keys, demands)->Ok_0.providers;
        assert forall|i: int| 0 <= i < demands.len() implies (#[trigger] providers[i]).label
            == labels[i] && (demands[i] matches DemandView::Ready(NodeValueView::Target(t))
            && providers[i].providers == t.providers) by {
            if i < n {
                assert(providers[i] == old_providers[i]);
                assert(before[i] == demands[i]);
            }
        }
    }
}

/// The rule gets a toolchain for every type that it requires, in order, or the analysis fails.
pub proof fn law_required_toolchains_are_there(
    required: Seq<Seq<char>>,
    m: Map<Seq<char>, ValueView>,
)
    ensures
        toolchains_of(required, m) is Ok <==> forall|i: int|
            0 <= i < required.len() ==> m.dom().contains(#[trigger] required[i]),
{
    let p = |ty: Seq<char>| !m.dom().contains(ty);
    if exists|i: int| 0 <= i < required.len() && p(#[trigger] required[i]) {
        let i = choose|i: int| 0 <= i < required.len() && p(#[trigger] required[i]);
        seqs::lemma_first_exists(required, p, i);
    } else {
        assert forall|i: int| 0 <= i < required.len() implies m.dom().contains(
            #[trigger] required[i],
        ) by {
            assert(!p(required[i]));
        }
    }
}

// ---- Laws of the labels that a rule reads ----

/// The labels of more attributes of a rule are those of the first ones, and behind them those that
/// the target gives to the next: the labels of the first attribute of that name, where the rule types
/// it as labels, and nothing otherwise.
pub proof fn law_labels_are_read_attribute_by_attribute(
    schema: Seq<(Seq<char>, AttrType)>,
    attrs: Seq<(Seq<char>, ValueView)>,
    name: Seq<char>,
    ty: AttrType,
    i: int,
)
    ensures
        named_deps(Seq::empty(), attrs).len() == 0,
        ty == AttrType::Label && 0 <= i < attrs.len() && attrs[i].0 == name && (forall|j: int|
            0 <= j < i ==> (#[trigger] attrs[j]).0 != name) ==> named_deps(
            schema.push((name, ty)),
            attrs,
        ) == named_deps(schema, attrs) + value::labels_in(attrs[i].1),
        ty == AttrType::Plain ==> named_deps(schema.push((name, ty)), attrs) == named_deps(
            schema,
            attrs,
        ),
        (forall|j: int| 0 <= j < attrs.len() ==> (#[trigger] attrs[j]).0 != name) ==> named_deps(
            schema.push((name, ty)),
            attrs,
        ) == named_deps(schema, attrs),
{
    assert(schema.push((name, ty)).drop_last() =~= schema);
    value::lemma_lookup(attrs, name);
    assert(named_deps(schema, attrs) + Seq::empty() =~= named_deps(schema, attrs));
}

/// Whether the label attribute at position `k` of a rule is given by the attribute at position `i` of
/// a target, the first of that name, and its value is the label or a list that holds it.
pub open spec fn gives_label(
    schema: Seq<(Seq<char>, AttrType)>,
    attrs: Seq<(Seq<char>, ValueView)>,
    k: int,
    i: int,
    l: Seq<char>,
) -> bool {
    &&& 0 <= k < schema.len()
    &&& schema[k].1 == AttrType::Label
    &&& 0 <= i < attrs.len()
    &&& attrs[i].0 == schema[k].0
    &&& forall|j: int| 0 <= j < i ==> (#[trigger] attrs[j]).0 != schema[k].0
    &&& attrs[i].1 == ValueView::Str(l) || (attrs[i].1 matches ValueView::List(items)
        && items.contains(ValueView::Str(l)))
}

/// Every label attribute counts, and no other: the labels of a target are the strings that stand in
/// the values of its label attributes, alone or in a list.
pub proof fn law_every_label_attribute_counts(
    schema: Seq<(Seq<char>, AttrType)>,
    attrs: Seq<(Seq<char>, ValueView)>,
    l: Seq<char>,
)
    ensures
        named_deps(schema, attrs).contains(l) <==> exists|k: int, i: int|
            gives_label(schema, attrs, k, i, l),
    decreases schema.len(),
{
    if schema.len() > 0 {
        let before = schema.drop_last();
        let n = schema.len() - 1;
        let (name, ty) = schema.last();
        law_every_label_attribute_counts(before, attrs, l);
        value::lemma_lookup(attrs, name);
        let last = match value::lookup(attrs, name) {
            Some(v) => if ty is Label {
                value::labels_in(v)
            } else {
                Seq::empty()
            },
            None => Seq::empty(),
        };
        seqs::lemma_add_contains(named_deps(before, attrs), last, l);
        if let Some(v) = value::lookup(attrs, name) {
            value::law_labels_are_the_strings(v, l);
            let i = lemma_first_of_name(attrs, name);
            if last.contains(l) {
                assert(schema[n] == schema.last());
                assert(gives_label(schema, attrs, n, i, l));
            }
        }
        if named_deps(before, attrs).contains(l) {
            let (k, i) = choose|k: int, i: int| gives_label(before, attrs, k, i, l);
            assert(before[k] == schema[k]);
            assert(gives_label(schema, attrs, k, i, l));
        }
        if exists|k: int, i: int| gives_label(schema, attrs, k, i, l) {
            let (k, i) = choose|k: int, i: int| gives_label(schema, attrs, k, i, l);
            if k < n {
                assert(before[k] == schema[k]);
                assert(gives_label(before, attrs, k, i, l));
            } else {
                assert(schema[n] == schema.last());
                assert(attrs[i].0 == name);
            }
        }
    }
}

/// The position of the attribute that a name leads to.
proof fn lemma_first_of_name(attrs: Seq<(Seq<char>, ValueView)>, name: Seq<char>) -> (i: int)
    requires
        value::lookup(attrs, name) is Some,
    ensures
        0 <= i < attrs.len(),
        attrs[i].0 == name,
        forall|j: int| 0 <= j < i ==> (#[trigger] attrs[j]).0 != name,
        value::lookup(attrs, name) == Some(attrs[i].1),
{
    let p = value::named::<ValueView>(name);
    let i = choose|i: int| seqs::first_where(attrs, p, i);
    assert(seqs::first_where(attrs, p, i));
    seqs::lemma_first_at(attrs, p, i);
    assert forall|j: int| 0 <= j < i implies (#[trigger] attrs[j]).0 != name by {
        assert(!p(attrs[j]));
    }
    i
}

/// How an attribute is called has no influence: rules that type their attributes alike and targets
/// that give them the same values have the same labels.
pub proof fn law_attribute_names_do_not_matter(
    a: Seq<(Seq<char>, AttrType)>,
    x: Seq<(Seq<char>, ValueView)>,
    b: Seq<(Seq<char>, AttrType)>,
    y: Seq<(Seq<char>, ValueView)>,
)
    requires
        a.len() == b.len(),
        forall|k: int|
            #![trigger a[k]]
            0 <= k < a.len() ==> a[k].1 == b[k].1 && value::lookup(x, a[k].0) == value::lookup(
                y,
                b[k].0,
            ),
    ensures
        named_deps(a, x) == named_deps(b, y),
    decreases a.len(),
{
    if a.len() > 0 {
        assert forall|k: int|
            #![trigger a.drop_last()[k]]
            0 <= k < a.drop_last().len() implies a.drop_last()[k].1 == b.drop_last()[k].1
            && value::lookup(x, a.drop_last()[k].0) == value::lookup(y, b.drop_last()[k].0) by {
            assert(a.drop_last()[k] == a[k]);
        }
        law_attribute_names_do_not_matter(a.drop_last(), x, b.drop_last(), y);
        assert(a[a.len() - 1] == a.last());
    }
}

// ---- Laws of the steps ----

/// The module of the rule is asked for by the path of the rule, and has to be a module.
pub proof fn law_rules_come_from_their_module(
    f: ConfiguredTargetFn,
    subject: SubjectView,
    e: ErrorView,
    v: NodeValueView,
)
    ensures
        after_rule_module(f, subject, Err(e)) == StepView::Done(ResultView::Error(e)),
        after_rule_module(f, subject, Ok(DemandView::Missing)) == StepView::Done(
            ResultView::Missing(seq![RequestView::RuleModule(subject.origin.bzl)]),
        ),
        !(v is Module) ==> after_rule_module(f, subject, Ok(DemandView::Ready(v)))
            == StepView::Done(
            ResultView::Error(
                ErrorView::Invalid { what: "BZL_LOAD value"@, detail: "not a BzlModuleValue"@ },
            ),
        ),
{
}

/// The rule of a target is what its module exports under the name of the rule. The dependencies are
/// then asked for under the labels that the label attributes of the rule name, each by its own node,
/// with the toolchains that the rule requires; the first label that cannot be resolved fails.
pub proof fn law_rules_name_the_dependencies(
    f: ConfiguredTargetFn,
    subject: SubjectView,
    exports: Seq<(Seq<char>, ValueView)>,
    i: int,
)
    requires
        0 <= i < exports.len(),
        exports[i].0 == subject.origin.name,
        forall|j: int| 0 <= j < i ==> (#[trigger] exports[j]).0 != subject.origin.name,
        exports[i].1 is Rule,
    ensures
        ({
            let rule = exports[i].1->Rule_0;
            let labels = named_deps(rule.attrs, subject.target.attrs);
            let repos = f.repos@.dom();
            let step = after_rule_module(
                f,
                subject,
                Ok(DemandView::Ready(NodeValueView::Module(exports))),
            );
            &&& (forall|k: int|
                0 <= k < labels.len() ==> label::dependency_node(
                    subject.ctk,
                    #[trigger] labels[k],
                    repos,
                ) is Ok) ==> {
                &&& step is Deps
                &&& step->Deps_subject == subject
                &&& step->Deps_required == rule.toolchains
                &&& step->Deps_labels == labels
                &&& step->Deps_keys.len() == labels.len()
                &&& forall|k: int|
                    0 <= k < labels.len() ==> label::dependency_node(subject.ctk, labels[k], repos)
                        == Ok::<NodeKeyView, ErrorView>(#[trigger] step->Deps_keys[k])
            }
            &&& forall|k: int|
                0 <= k < labels.len() && (#[trigger] label::dependency_node(
                    subject.ctk,
                    labels[k],
                    repos,
                )) is Err && (forall|j: int|
                    0 <= j < k ==> label::dependency_node(
                        subject.ctk,
                        #[trigger] labels[j],
                        repos,
                    ) is Ok) ==> step == StepView::Done(
                    ResultView::Error(
                        label::dependency_node(subject.ctk, labels[k], repos)->Err_0,
                    ),
                )
        }),
{
    let rule = exports[i].1->Rule_0;
    let labels = named_deps(rule.attrs, subject.target.attrs);
    let repos = f.repos@.dom();
    value::lemma_lookup(exports, subject.origin.name);
    label::law_groups_are_resolved_one_by_one(subject.ctk, labels, repos);
    match label::dependency_nodes(subject.ctk, labels, repos) {
        Ok(nodes) => {
            assert forall|k: int| 0 <= k < labels.len() implies label::dependency_node(
                subject.ctk,
                #[trigger] labels[k],
                repos,
            ) is Ok by {
                assert(label::dependency_node(subject.ctk, labels[k], repos) == Ok::<
                    NodeKeyView,
                    ErrorView,
                >(nodes[k]));
            }
        },
        Err(e) => {
            let m = choose|m: int|
                0 <= m < labels.len() && label::dependency_node(
                    subject.ctk,
                    #[trigger] labels[m],
                    repos,
                ) == Err::<NodeKeyView, ErrorView>(e) && forall|j: int|
                    0 <= j < m ==> label::dependency_node(
                        subject.ctk,
                        #[trigger] labels[j],
                        repos,
                    ) is Ok;
            assert(label::dependency_node(subject.ctk, labels[m], repos) is Err);
            assert forall|k: int|
                0 <= k < labels.len() && (#[trigger] label::dependency_node(
                    subject.ctk,
                    labels[k],
                    repos,
                )) is Err && (forall|j: int|
                    0 <= j < k ==> label::dependency_node(
                        subject.ctk,
                        #[trigger] labels[j],
                        repos,
                    ) is Ok) implies k == m by {
                assert(labels[k] == labels[k]);
                assert(labels[m] == labels[m]);
            }
        },
    }
}

/// A target whose module does not export a rule under the name of the rule fails, and the failure
/// names both. Of two exports of that name the first counts.
pub proof fn law_rules_have_to_be_exported(
    f: ConfiguredTargetFn,
    subject: SubjectView,
    exports: Seq<(Seq<char>, ValueView)>,
)
    requires
        forall|i: int|
            0 <= i < exports.len() && (#[trigger] exports[i]).0 == subject.origin.name && (forall|
                j: int,
            |
                0 <= j < i ==> (#[trigger] exports[j]).0 != subject.origin.name)
                ==> !(exports[i].1 is Rule),
    ensures
        after_rule_module(f, subject, Ok(DemandView::Ready(NodeValueView::Module(exports))))
            == StepView::Done(
            ResultView::Error(
                ErrorView::Invalid {
                    what: "rule definition"@,
                    detail: "'"@ + subject.origin.name + "' is not a rule in "@
                        + subject.origin.bzl,
                },
            ),
        ),
{
    if value::lookup(exports, subject.origin.name) is Some {
        let i = lemma_first_of_name(exports, subject.origin.name);
        assert(exports[i].0 == subject.origin.name);
    }
}

/// What one more dependency adds: nothing where it is not built; else its providers under its label,
/// behind the others, and its outputs. Anything but a configured target fails.
pub proof fn law_dependencies_are_gathered_one_by_one(
    ctk: KeyView,
    labels: Seq<Seq<char>>,
    keys: Seq<NodeKeyView>,
    demands: Seq<DemandView>,
    v: NodeValueView,
    t: TargetView,
)
    ensures
        gathered(ctk, labels, keys, Seq::empty()) == Ok::<GatheredView, ErrorView>(
            GatheredView { providers: Seq::empty(), outputs: Seq::empty() },
        ),
        gathered(ctk, labels, keys, demands.push(DemandView::Missing)) == gathered(
            ctk,
            labels,
            keys,
            demands,
        ),
        gathered(ctk, labels, keys, demands) is Err ==> gathered(
            ctk,
            labels,
            keys,
            demands.push(DemandView::Ready(v)),
        ) == gathered(ctk, labels, keys, demands),
        gathered(ctk, labels, keys, demands) matches Ok(g) ==> {
            let n = demands.len() as int;
            let more = gathered(
                ctk,
                labels,
                keys,
                demands.push(DemandView::Ready(NodeValueView::Target(t))),
            );
            match analysis::edge(ctk, labels[n], keys[n], t, g.outputs) {
                Ok(outputs) => more matches Ok(h) && h.outputs == outputs && h.providers
                    == g.providers.push(
                    DepProvidersView { label: labels[n], providers: t.providers },
                ),
                Err(e) => more == Err::<GatheredView, ErrorView>(e),
            }
        },
        gathered(ctk, labels, keys, demands) is Ok && !(v is Target) ==> gathered(
            ctk,
            labels,
            keys,
            demands.push(DemandView::Ready(v)),
        ) == Err::<GatheredView, ErrorView>(
            ErrorView::Invalid {
                what: "CONFIGURED_TARGET dep"@,
                detail: "not a ConfiguredTarget"@,
            },
        ),
{
    assert(demands.push(DemandView::Missing).drop_last() =~= demands);
    assert(demands.push(DemandView::Ready(v)).drop_last() =~= demands);
    assert(demands.push(DemandView::Ready(NodeValueView::Target(t))).drop_last() =~= demands);
}

/// After the dependencies: a failure among them ends the analysis. Without required toolchains it
/// waits for the dependencies that are not built, and else goes on to the source with what the others
/// give. Required toolchains are asked for in the configuration of the target, and without one the
/// analysis fails.
pub proof fn law_toolchains_take_a_configuration(
    subject: SubjectView,
    required: Seq<Seq<char>>,
    labels: Seq<Seq<char>>,
    keys: Seq<NodeKeyView>,
    demands: Seq<DemandView>,
)
    requires
        demands.len() <= keys.len(),
    ensures
        ({
            let step = after_deps(subject, required, labels, keys, demands);
            match gathered(subject.ctk, labels, keys, demands) {
                Err(e) => step == StepView::Done(ResultView::Error(e)),
                Ok(deps) => {
                    &&& required.len() == 0 && (exists|i: int|
                        0 <= i < demands.len() && #[trigger] demands[i] is Missing)
                        ==> step == StepView::Done(
                        ResultView::Missing(
                            node::missing_among(keys, demands).map_values(
                                |k: NodeKeyView| RequestView::Target(k),
                            ),
                        ),
                    )
                    &&& required.len() == 0 && (forall|i: int|
                        0 <= i < demands.len() ==> !(#[trigger] demands[i] is Missing))
                        ==> step == (StepView::Source {
                        inputs: InputsView { subject, deps, toolchains: Seq::empty() },
                    })
                    &&& required.len() > 0 ==> (match subject.ctk.configuration {
                        Some(configuration) => step == (StepView::Toolchains {
                            subject,
                            configuration,
                            required,
                            missing: node::missing_among(keys, demands),
                            deps,
                        }),
                        None => step == StepView::Done(
                            ResultView::Error(
                                ErrorView::Unsupported {
                                    what: "toolchain resolution"@,
                                    detail: "target '"@ + subject.ctk.package + ":"@
                                        + subject.ctk.name + "' requires toolchains "@
                                        + outside::listed(required)
                                        + " but has no configuration"@,
                                },
                            ),
                        ),
                    })
                },
            }
        }),
{
    let missing = node::missing_among(keys, demands);
    if exists|i: int| 0 <= i < demands.len() && #[trigger] demands[i] is Missing {
        let i = choose|i: int| 0 <= i < demands.len() && #[trigger] demands[i] is Missing;
        node::law_missing_nodes_are_those_not_built(keys, demands, keys[i]);
        assert(missing.contains(keys[i]));
    }
    if missing.len() > 0 {
        node::law_missing_nodes_are_those_not_built(keys, demands, missing[0]);
        assert(missing.contains(missing[0]));
    }
}

/// The request for toolchains is for every required type, in order and as mandatory, in the given
/// configuration, and for nothing else.
pub proof fn law_required_toolchains_are_mandatory(
    configuration: Seq<char>,
    required: Seq<Seq<char>>,
)
    ensures
        toolchain_request(configuration, required) matches RequestView::Toolchains(k)
            && k.configuration == configuration && k.types.len() == required.len()
            && k.exec_constraints.len() == 0 && k.force_exec_platform is None && !k.debug_target
            && forall|i: int|
            0 <= i < required.len() ==> (#[trigger] k.types[i]).toolchain_type == required[i]
                && k.types[i].mandatory,
{
}

/// Each required type gets its own toolchain, in order; the first that is absent is named.
pub proof fn law_each_type_gets_its_toolchain(
    required: Seq<Seq<char>>,
    m: Map<Seq<char>, ValueView>,
    i: int,
)
    ensures
        toolchains_of(required, m) matches Ok(list) ==> list.len() == required.len() && forall|k: int|
            0 <= k < required.len() ==> (#[trigger] list[k]).toolchain_type == required[k]
                && m.dom().contains(required[k]) && list[k].info == m[required[k]],
        0 <= i < required.len() && !m.dom().contains(required[i]) && (forall|k: int|
            0 <= k < i ==> m.dom().contains(#[trigger] required[k])) ==> toolchains_of(required, m)
            == Err::<Seq<ToolchainView>, ErrorView>(
            ErrorView::Invalid {
                what: "TOOLCHAIN_CONTEXT value"@,
                detail: "mandatory toolchain type '"@ + required[i]
                    + "' absent from the resolved context"@,
            },
        ),
{
    let p = |ty: Seq<char>| !m.dom().contains(ty);
    law_required_toolchains_are_there(required, m);
    if 0 <= i < required.len() && !m.dom().contains(required[i]) && forall|k: int|
        0 <= k < i ==> m.dom().contains(#[trigger] required[k]) {
        assert(seqs::first_where(required, p, i));
        seqs::lemma_first_at(required, p, i);
    }
}

/// After the toolchains: where they are not built, they are waited for behind the dependencies that
/// are not; where they are, a type that is absent fails, then the dependencies are waited for, and
/// else the analysis goes on to the source with one toolchain for each type.
pub proof fn law_toolchains_join_the_inputs(
    subject: SubjectView,
    configuration: Seq<char>,
    required: Seq<Seq<char>>,
    missing: Seq<NodeKeyView>,
    deps: GatheredView,
    v: NodeValueView,
)
    ensures
        after_toolchain_answer(
            subject,
            configuration,
            required,
            missing,
            deps,
            DemandView::Missing,
        ) == StepView::Done(
            ResultView::Missing(
                missing.map_values(|k: NodeKeyView| RequestView::Target(k)).push(
                    toolchain_request(configuration, required),
                ),
            ),
        ),
        ({
            let step = after_toolchain_answer(
                subject,
                configuration,
                required,
                missing,
                deps,
                DemandView::Ready(v),
            );
            match v {
                NodeValueView::Toolchains(m) => match toolchains_of(required, m) {
                    Err(e) => step == StepView::Done(ResultView::Error(e)),
                    Ok(toolchains) => {
                        &&& missing.len() > 0 ==> step == StepView::Done(
                            ResultView::Missing(
                                missing.map_values(|k: NodeKeyView| RequestView::Target(k)),
                            ),
                        )
                        &&& missing.len() == 0 ==> step == (StepView::Source {
                            inputs: InputsView { subject, deps, toolchains },
                        })
                    },
                },
                _ => step == StepView::Done(
                    ResultView::Error(
                        ErrorView::Invalid {
                            what: "TOOLCHAIN_CONTEXT dep"@,
                            detail: "not a ResolvedToolchainContextValue"@,
                        },
                    ),
                ),
            }
        }),
{
}

/// The module of the rule is asked for by the path of the rule, and the toolchains in the
/// configuration of the target, one mandatory type for each that is required.
pub proof fn law_rule_and_toolchains_are_asked_for(
    m: AwaitRuleModule,
    t: AwaitToolchains,
    r: Request,
)
    ensures
        call_ensures(AwaitRuleModule::request, (&m,), r) ==> r@ == RequestView::RuleModule(
            m.subject.origin.bzl@,
        ),
        call_ensures(AwaitToolchains::request, (&t,), r) ==> (r@ matches RequestView::Toolchains(k)
            && k.configuration == t.configuration@ && k.types.len() == t.required@.len()
            && forall|i: int|
            0 <= i < t.required@.len() ==> (#[trigger] k.types[i]).toolchain_type
                == t.required@[i]@ && k.types[i].mandatory),
{
    law_required_toolchains_are_mandatory(t.configuration@, text::texts(t.required@));
}

/// A string is among the labels that are read exactly where a label attribute of the rule is given
/// it, alone or in a list.
pub proof fn law_labels_that_are_read_were_given(
    schema: Vec<(String, AttrType)>,
    attrs: Vec<(String, BzlValue)>,
    r: Vec<String>,
    all: Seq<(Seq<char>, AttrType)>,
    l: Seq<char>,
)
    requires
        call_ensures(dependency_labels, (&schema, &attrs), r),
        all.len() == schema@.len(),
        forall|k: int|
            0 <= k < all.len() ==> #[trigger] all[k] == (schema@[k].0@, schema@[k].1),
    ensures
        (exists|n: int| 0 <= n < r@.len() && (#[trigger] r@[n])@ == l) <==> exists|k: int, i: int|
            gives_label(all, value::named_view(attrs@), k, i, l),
{
    assert(all =~= schema@.map_values(|a: (String, AttrType)| (a.0@, a.1)));
    law_every_label_attribute_counts(all, value::named_view(attrs@), l);
    if exists|n: int| 0 <= n < r@.len() && (#[trigger] r@[n])@ == l {
        let n = choose|n: int| 0 <= n < r@.len() && (#[trigger] r@[n])@ == l;
        assert(text::texts(r@)[n] == l);
    }
    if text::texts(r@).contains(l) {
        let n = choose|n: int| 0 <= n < text::texts(r@).len() && text::texts(r@)[n] == l;
        assert(r@[n]@ == l);
    }
}

} // verus!
