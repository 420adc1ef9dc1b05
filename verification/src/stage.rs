//! The stages of an analysis: what is known at each, and what is asked for next.

use vstd::prelude::*;
use crate::decl::{
    BzlModule, DeclView, OriginView, ProviderInstance, ProviderView, RuleOrigin, TargetDecl,
};
use crate::error::{Error, ErrorView};
use crate::key::{ConfiguredTargetKey, KeyView, NodeKey, NodeKeyView};
use crate::node::{Request, RequestView};
use crate::seqs;
use crate::target::{ConfiguredTarget, DepOutput, DepOutputView, TargetView};
use crate::text;
use crate::value::{BzlValue, ValueView};

verus! {

// ---- Results ----

/// The result of an analysis.
pub enum ComputeResult {
    Ready(ConfiguredTarget),
    /// The nodes that have to be built before the analysis is started again.
    Missing(Vec<Request>),
    Error(Error),
}

/// The model of a [`ComputeResult`].
pub enum ResultView {
    Ready(TargetView),
    Missing(Seq<RequestView>),
    Error(ErrorView),
}

impl View for ComputeResult {
    type V = ResultView;

    open spec fn view(&self) -> ResultView {
        match self {
            ComputeResult::Ready(t) => ResultView::Ready(t@),
            ComputeResult::Missing(requests) => ResultView::Missing(seqs::views(requests@)),
            ComputeResult::Error(e) => ResultView::Error(e@),
        }
    }
}

// ---- What an analysis collects ----

/// The providers of one dependency, under the label by which it was named.
pub struct DepProviders {
    pub label: String,
    pub providers: Vec<ProviderInstance>,
}

/// The model of a [`DepProviders`].
pub struct DepProvidersView {
    pub label: Seq<char>,
    pub providers: Seq<ProviderView>,
}

impl View for DepProviders {
    type V = DepProvidersView;

    open spec fn view(&self) -> DepProvidersView {
        DepProvidersView { label: self.label@, providers: seqs::views(self.providers@) }
    }
}

/// A toolchain that was resolved for a required type.
pub struct ResolvedToolchain {
    pub toolchain_type: String,
    pub info: BzlValue,
}

/// The model of a [`ResolvedToolchain`].
pub struct ToolchainView {
    pub toolchain_type: Seq<char>,
    pub info: ValueView,
}

impl View for ResolvedToolchain {
    type V = ToolchainView;

    open spec fn view(&self) -> ToolchainView {
        ToolchainView { toolchain_type: self.toolchain_type@, info: self.info@ }
    }
}

/// A target that a rule made.
pub struct Subject {
    pub ctk: ConfiguredTargetKey,
    pub target: TargetDecl,
    pub origin: RuleOrigin,
}

/// The model of a [`Subject`].
pub struct SubjectView {
    pub ctk: KeyView,
    pub target: DeclView,
    pub origin: OriginView,
}

impl View for Subject {
    type V = SubjectView;

    open spec fn view(&self) -> SubjectView {
        SubjectView { ctk: self.ctk@, target: self.target@, origin: self.origin@ }
    }
}

/// What the dependencies of a target give it.
pub struct Gathered {
    pub providers: Vec<DepProviders>,
    pub outputs: Vec<DepOutput>,
}

/// The model of a [`Gathered`].
pub struct GatheredView {
    pub providers: Seq<DepProvidersView>,
    pub outputs: Seq<DepOutputView>,
}

impl View for Gathered {
    type V = GatheredView;

    open spec fn view(&self) -> GatheredView {
        GatheredView { providers: seqs::views(self.providers@), outputs: seqs::views(self.outputs@) }
    }
}

/// What the rule of a target is run on, apart from its own source.
pub struct Inputs {
    pub subject: Subject,
    pub deps: Gathered,
    pub toolchains: Vec<ResolvedToolchain>,
}

/// The model of an [`Inputs`].
pub struct InputsView {
    pub subject: SubjectView,
    pub deps: GatheredView,
    pub toolchains: Seq<ToolchainView>,
}

impl View for Inputs {
    type V = InputsView;

    open spec fn view(&self) -> InputsView {
        InputsView {
            subject: self.subject@,
            deps: self.deps@,
            toolchains: seqs::views(self.toolchains@),
        }
    }
}

/// The modules that the rule's own module loads, as far as they are known.
pub struct Loads {
    /// The modules, each under the text by which it is loaded.
    pub loaded: Vec<(String, BzlModule)>,
    /// The modules that are not built yet.
    pub missing: Vec<Request>,
    /// The texts of the loads that come later.
    pub rest: Vec<String>,
}

/// The model of a [`Loads`].
pub struct LoadsView {
    pub loaded: Seq<(Seq<char>, Seq<(Seq<char>, ValueView)>)>,
    pub missing: Seq<RequestView>,
    pub rest: Seq<Seq<char>>,
}

/// The models of some loaded modules.
pub open spec fn modules(loaded: Seq<(String, BzlModule)>) -> Seq<
    (Seq<char>, Seq<(Seq<char>, ValueView)>),
> {
    loaded.map_values(|m: (String, BzlModule)| (m.0@, m.1@))
}

impl View for Loads {
    type V = LoadsView;

    open spec fn view(&self) -> LoadsView {
        LoadsView {
            loaded: modules(self.loaded@),
            missing: seqs::views(self.missing@),
            rest: text::texts(self.rest@),
        }
    }
}

// ---- Stages ----

/// The package of the target is asked for.
pub struct AwaitPackage {
    pub ctk: ConfiguredTargetKey,
}

/// The target that an alias stands for is asked for.
pub struct AwaitActual {
    pub ctk: ConfiguredTargetKey,
    pub actual: String,
    pub visibility: Vec<String>,
    pub node: NodeKey,
}

/// The conditions of the selectable attributes are asked for.
pub struct AwaitConditions {
    pub ctk: ConfiguredTargetKey,
    pub target: TargetDecl,
    pub labels: Vec<String>,
    pub keys: Vec<NodeKey>,
}

/// The file that defines the rule is asked for.
pub struct AwaitRuleFile {
    pub subject: Subject,
}

/// The module that defines the rule is asked for.
pub struct AwaitRuleModule {
    pub subject: Subject,
}

/// The dependencies are asked for.
pub struct AwaitDeps {
    pub subject: Subject,
    pub required: Vec<String>,
    pub labels: Vec<String>,
    pub keys: Vec<NodeKey>,
}

/// The toolchains are asked for.
pub struct AwaitToolchains {
    pub subject: Subject,
    pub configuration: String,
    pub required: Vec<String>,
    pub missing: Vec<NodeKey>,
    pub deps: Gathered,
}

/// The source of the rule's module is to be read.
pub struct AwaitSource {
    pub inputs: Inputs,
}

/// The source is to be searched for the modules that it loads.
pub struct AwaitScan {
    pub inputs: Inputs,
    pub source: String,
}

/// The path of a loaded module is to be found.
pub struct AwaitLoadPath {
    pub inputs: Inputs,
    pub source: String,
    pub load: String,
    pub loads: Loads,
}

/// A loaded module is asked for.
pub struct AwaitLoad {
    pub inputs: Inputs,
    pub source: String,
    pub load: String,
    pub path: String,
    pub loads: Loads,
}

/// The rule is to be run.
pub struct AwaitEvaluation {
    pub inputs: Inputs,
    pub source: String,
    pub loaded: Vec<(String, BzlModule)>,
}

impl AwaitConditions {
    /// Every condition has a node.
    pub open spec fn wf(&self) -> bool {
        self.labels@.len() == self.keys@.len()
    }
}

impl AwaitDeps {
    /// Every dependency has a node.
    pub open spec fn wf(&self) -> bool {
        self.labels@.len() == self.keys@.len()
    }
}

/// The next step of an analysis.
pub enum Step {
    Done(ComputeResult),
    Package(AwaitPackage),
    Actual(AwaitActual),
    Conditions(AwaitConditions),
    RuleFile(AwaitRuleFile),
    RuleModule(AwaitRuleModule),
    Deps(AwaitDeps),
    Toolchains(AwaitToolchains),
    Source(AwaitSource),
    Scan(AwaitScan),
    LoadPath(AwaitLoadPath),
    Load(AwaitLoad),
    Evaluation(AwaitEvaluation),
}

/// The model of a [`Step`].
pub enum StepView {
    Done(ResultView),
    Package { ctk: KeyView },
    Actual { ctk: KeyView, actual: Seq<char>, visibility: Seq<Seq<char>>, node: NodeKeyView },
    Conditions {
        ctk: KeyView,
        target: DeclView,
        labels: Seq<Seq<char>>,
        keys: Seq<NodeKeyView>,
    },
    RuleFile { subject: SubjectView },
    RuleModule { subject: SubjectView },
    Deps {
        subject: SubjectView,
        required: Seq<Seq<char>>,
        labels: Seq<Seq<char>>,
        keys: Seq<NodeKeyView>,
    },
    Toolchains {
        subject: SubjectView,
        configuration: Seq<char>,
        required: Seq<Seq<char>>,
        missing: Seq<NodeKeyView>,
        deps: GatheredView,
    },
    Source { inputs: InputsView },
    Scan { inputs: InputsView, source: Seq<char> },
    LoadPath { inputs: InputsView, source: Seq<char>, load: Seq<char>, loads: LoadsView },
    Load {
        inputs: InputsView,
        source: Seq<char>,
        load: Seq<char>,
        path: Seq<char>,
        loads: LoadsView,
    },
    Evaluation {
        inputs: InputsView,
        source: Seq<char>,
        loaded: Seq<(Seq<char>, Seq<(Seq<char>, ValueView)>)>,
    },
}

impl View for Step {
    type V = StepView;

    open spec fn view(&self) -> StepView {
        match self {
            Step::Done(r) => StepView::Done(r@),
            Step::Package(s) => StepView::Package { ctk: s.ctk@ },
            Step::Actual(s) => StepView::Actual {
                ctk: s.ctk@,
                actual: s.actual@,
                visibility: text::texts(s.visibility@),
                node: s.node@,
            },
            Step::Conditions(s) => StepView::Conditions {
                ctk: s.ctk@,
                target: s.target@,
                labels: text::texts(s.labels@),
                keys: seqs::views(s.keys@),
            },
            Step::RuleFile(s) => StepView::RuleFile { subject: s.subject@ },
            Step::RuleModule(s) => StepView::RuleModule { subject: s.subject@ },
            Step::Deps(s) => StepView::Deps {
                subject: s.subject@,
                required: text::texts(s.required@),
                labels: text::texts(s.labels@),
                keys: seqs::views(s.keys@),
            },
            Step::Toolchains(s) => StepView::Toolchains {
                subject: s.subject@,
                configuration: s.configuration@,
                required: text::texts(s.required@),
                missing: seqs::views(s.missing@),
                deps: s.deps@,
            },
            Step::Source(s) => StepView::Source { inputs: s.inputs@ },
            Step::Scan(s) => StepView::Scan { inputs: s.inputs@, source: s.source@ },
            Step::LoadPath(s) => StepView::LoadPath {
                inputs: s.inputs@,
                source: s.source@,
                load: s.load@,
                loads: s.loads@,
            },
            Step::Load(s) => StepView::Load {
                inputs: s.inputs@,
                source: s.source@,
                load: s.load@,
                path: s.path@,
                loads: s.loads@,
            },
            Step::Evaluation(s) => StepView::Evaluation {
                inputs: s.inputs@,
                source: s.source@,
                loaded: modules(s.loaded@),
            },
        }
    }
}

impl Step {
    /// Whether the labels and the nodes of a group belong together.
    pub open spec fn wf(&self) -> bool {
        match self {
            Step::Conditions(s) => s.wf(),
            Step::Deps(s) => s.wf(),
            _ => true,
        }
    }
}

/// The step that ends an analysis with a failure.
pub fn failed(e: Error) -> (r: Step)
    ensures
        r@ == StepView::Done(ResultView::Error(e@)),
        r.wf(),
{
    Step::Done(ComputeResult::Error(e))
}

/// The step that ends an analysis for want of one node.
pub fn waits_for(request: Request) -> (r: Step)
    ensures
        r@ == StepView::Done(ResultView::Missing(seq![request@])),
        r.wf(),
{
    let ghost one = seq![request@];
    let mut requests: Vec<Request> = Vec::new();
    requests.push(request);
    assert(seqs::views(requests@) =~= one);
    Step::Done(ComputeResult::Missing(requests))
}

/// The requests for some configured targets.
pub open spec fn target_requests(keys: Seq<NodeKeyView>) -> Seq<RequestView> {
    keys.map_values(|k: NodeKeyView| RequestView::Target(k))
}

/// The requests for some configured targets.
pub fn requests_for(keys: Vec<NodeKey>) -> (r: Vec<Request>)
    ensures
        seqs::views(r@) == target_requests(seqs::views(keys@)),
{
    let ghost all = target_requests(seqs::views(keys@));
    let mut r: Vec<Request> = Vec::new();
    assert(seqs::views(r@) =~= all.take(0));
    for k in it: keys
        invariant
            all == target_requests(seqs::views(it.seq())),
            seqs::views(r@) == all.take(it.index() as int),
    {
        let ghost i = it.index() as int;
        let ghost before = seqs::views(r@);
        r.push(Request::Target(k));
        assert(seqs::views(r@) =~= before.push(all[i]));
        assert(all.take(i + 1) =~= before.push(all[i]));
    }
    assert(all.take(all.len() as int) =~= all);
    r
}

// ---- Laws of requests ----

/// Every node of a group is asked for, in order, as a configured target.
pub proof fn law_each_node_is_asked_for(keys: Seq<NodeKeyView>)
    ensures
        target_requests(keys).len() == keys.len(),
        forall|i: int|
            0 <= i < keys.len() ==> #[trigger] target_requests(keys)[i] == RequestView::Target(
                keys[i],
            ),
{
}

/// The model of a result tells all of it.
pub proof fn law_models_tell_the_whole_result(r: ComputeResult)
    ensures
        r matches ComputeResult::Ready(t) ==> r@ == ResultView::Ready(t@),
        r matches ComputeResult::Missing(m) ==> r@ == ResultView::Missing(seqs::views(m@)),
        r matches ComputeResult::Error(e) ==> r@ == ResultView::Error(e@),
{
}

/// The models of what an analysis collects tell all of it.
pub proof fn law_models_tell_all_that_is_collected(
    i: Inputs,
    s: Subject,
    g: Gathered,
    d: DepProviders,
    t: ResolvedToolchain,
    l: Loads,
)
    ensures
        i@.subject == i.subject@,
        i@.deps == i.deps@,
        i@.toolchains == seqs::views(i.toolchains@),
        s@.ctk == s.ctk@,
        s@.target == s.target@,
        s@.origin == s.origin@,
        g@.providers == seqs::views(g.providers@),
        g@.outputs == seqs::views(g.outputs@),
        d@.label == d.label@,
        d@.providers == seqs::views(d.providers@),
        t@.toolchain_type == t.toolchain_type@,
        t@.info == t.info@,
        l@.missing == seqs::views(l.missing@),
        l@.rest == text::texts(l.rest@),
        l@.loaded.len() == l.loaded@.len(),
        forall|k: int|
            0 <= k < l.loaded@.len() ==> (#[trigger] l@.loaded[k]).0 == l.loaded@[k].0@
                && l@.loaded[k].1 == l.loaded@[k].1@,
{
}

} // verus!
