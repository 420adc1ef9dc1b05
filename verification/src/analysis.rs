//! The analysis of a target, step by step.
//!
//! An analysis asks for nodes of the build graph, for the source of a module and for the run of a
//! rule. Each of these is done by the caller: a step says what is to be done, and the answer to it
//! leads to the next step. Where a node is not built yet, the analysis ends and names what is
//! missing; it is started anew once that is there.

use vstd::prelude::*;
use crate::configurable::{
    self, condition_labels, has_select, resolve_target_selects, ResolutionView, SelectResolution,
};
use crate::decl::{self, DeclView, TargetDecl};
use crate::error::{invalid, not_found, Error, ErrorView};
use crate::key::{self, decode_ct_key, ConfiguredTargetKey, KeyView, NodeKey, NodeKeyView};
use crate::label::{self, render_label, resolve_dep, resolve_deps, ExternalRepos};
use crate::node::{Demand, DemandView, NodeValue, NodeValueView, Request, RequestView};
use crate::select::{self, compute_config_match, SelectConfig};
use crate::seqs;
use crate::stage::{
    self, failed, waits_for, AwaitActual, AwaitConditions, AwaitPackage, AwaitRuleFile,
    AwaitRuleModule, ComputeResult, ResultView, Step, StepView, Subject, SubjectView,
};
use crate::target::{self, merge_dependency, ConfiguredTarget, DepOutput, DepOutputView, TargetView};
use crate::text::{self, same_text};
use crate::value::{self, find_named, BzlValue, ValueView};
use crate::visibility::{self, check_visibility, target_visibility};

verus! {

/// What the analysis of targets goes by: the declared repositories and the configurations.
pub struct ConfiguredTargetFn {
    pub repos: ExternalRepos,
    pub select_config: SelectConfig,
}

impl ConfiguredTargetFn {
    /// An analysis without external repositories and configurations.
    pub fn new() -> (r: Self)
        ensures
            r.repos@ == Map::<Seq<char>, label::ExternalRepo>::empty(),
            r.select_config.platforms@ == Map::<Seq<char>, Vec<String>>::empty(),
            r.select_config.values@ == Map::<
                Seq<char>,
                crate::string_map::StringMap<String>,
            >::empty(),
    {
        Self::new_with_repos(ExternalRepos::empty())
    }

    /// An analysis without configurations.
    pub fn new_with_repos(repos: ExternalRepos) -> (r: Self)
        ensures
            r.repos == repos,
            r.select_config.platforms@ == Map::<Seq<char>, Vec<String>>::empty(),
            r.select_config.values@ == Map::<
                Seq<char>,
                crate::string_map::StringMap<String>,
            >::empty(),
    {
        Self::new_with_repos_and_select(repos, SelectConfig::default())
    }

    /// An analysis with the given repositories and configurations.
    pub fn new_with_repos_and_select(repos: ExternalRepos, select_config: SelectConfig) -> (r: Self)
        ensures
            r.repos == repos,
            r.select_config == select_config,
    {
        ConfiguredTargetFn { repos, select_config }
    }
}

// ---- Edges ----

/// What an edge to a built dependency adds to the map of outputs: the key of the dependency has to
/// be readable, the dependency has to be visible, and its outputs must not be claimed twice.
pub open spec fn edge(
    ctk: KeyView,
    lbl: Seq<char>,
    node: NodeKeyView,
    t: TargetView,
    outputs: Seq<DepOutputView>,
) -> Result<Seq<DepOutputView>, ErrorView> {
    match key::decoded(node.bytes) {
        Err(e) => Err(e),
        Ok(dep) => match visibility::admitted(
            ctk.package,
            dep.package,
            label::rendered(ctk.package, ctk.name),
            lbl,
            t.visibility,
        ) {
            Err(e) => Err(e),
            Ok(()) => target::merged_all(outputs, target::contribution(dep, t), ctk),
        },
    }
}

/// Follows an edge to a built dependency.
pub(crate) fn follow_edge(
    ctk: &ConfiguredTargetKey,
    lbl: &str,
    node: &NodeKey,
    ct: &ConfiguredTarget,
    outputs: &mut Vec<DepOutput>,
) -> (r: Result<(), Error>)
    ensures
        edge(ctk@, lbl@, node@, ct@, seqs::views(old(outputs)@)) == (match r {
            Ok(()) => Ok::<Seq<DepOutputView>, ErrorView>(seqs::views(final(outputs)@)),
            Err(e) => Err::<Seq<DepOutputView>, ErrorView>(e@),
        }),
{
    let dep = match decode_ct_key(node.canonical()) {
        Ok(k) => k,
        Err(e) => {
            return Err(e);
        },
    };
    let parent_label = render_label(&ctk.package, &ctk.name);
    if let Err(e) = check_visibility(
        &ctk.package,
        &dep.package,
        &parent_label,
        lbl,
        ct.visibility.as_slice(),
    ) {
        return Err(e);
    }
    merge_dependency(outputs, &dep, ct, ctk)
}

// ---- The start ----

/// The step that asks for the package of the target, where the key is readable.
pub open spec fn after_start(k: NodeKeyView) -> StepView {
    match key::decoded(k.bytes) {
        Err(e) => StepView::Done(ResultView::Error(e)),
        Ok(ctk) => StepView::Package { ctk },
    }
}

impl ConfiguredTargetFn {
    /// Starts the analysis of a target.
    pub fn start(&self, k: &NodeKey) -> (r: Step)
        ensures
            r@ == after_start(k@),
            r.wf(),
    {
        match decode_ct_key(k.canonical()) {
            Ok(ctk) => Step::Package(AwaitPackage { ctk }),
            Err(e) => failed(e),
        }
    }
}

// ---- The declaration ----

/// The step after the package is answered.
pub open spec fn after_package(f: ConfiguredTargetFn, ctk: KeyView, d: DemandView) -> StepView {
    match d {
        DemandView::Missing => StepView::Done(
            ResultView::Missing(seq![RequestView::Package(ctk.package)]),
        ),
        DemandView::Ready(NodeValueView::Package(targets)) => match decl::declared(
            targets,
            ctk.name,
        ) {
            None => StepView::Done(
                ResultView::Error(
                    ErrorView::NotFound {
                        what: "target"@,
                        detail: "//"@ + ctk.package + ":"@ + ctk.name,
                    },
                ),
            ),
            Some(target) => after_declaration(f, ctk, target),
        },
        DemandView::Ready(_) => StepView::Done(
            ResultView::Error(
                ErrorView::Invalid { what: "PACKAGE value"@, detail: "not a Package"@ },
            ),
        ),
    }
}

/// The step after the declaration is found: an alias goes to what it stands for, a `config_setting`
/// is matched, and the selectable attributes of any other target are resolved.
pub open spec fn after_declaration(f: ConfiguredTargetFn, ctk: KeyView, target: DeclView) -> StepView {
    if target.kind == "alias"@ {
        alias_step(f, ctk, target)
    } else if target.kind == "config_setting"@ {
        match select::config_match(ctk, target, f.select_config) {
            Ok(t) => StepView::Done(ResultView::Ready(t)),
            Err(e) => StepView::Done(ResultView::Error(e)),
        }
    } else if configurable::selectable(target.attrs) {
        let labels = configurable::conditions_of(target.attrs);
        match label::dependency_nodes(ctk, labels, f.repos@.dom()) {
            Ok(keys) => StepView::Conditions { ctk, target, labels, keys },
            Err(e) => StepView::Done(ResultView::Error(e)),
        }
    } else {
        after_selects(ctk, target)
    }
}

/// The step after the selectable attributes are resolved: the target has to come from a rule.
pub open spec fn after_selects(ctk: KeyView, target: DeclView) -> StepView {
    match target.origin {
        Some(origin) => StepView::RuleFile { subject: SubjectView { ctk, target, origin } },
        None => StepView::Done(
            ResultView::Error(
                ErrorView::Unsupported {
                    what: "analyze a target with no rule definition"@,
                    detail: "//"@ + ctk.package + ":"@ + ctk.name
                        + " was not instantiated by a rule()"@,
                },
            ),
        ),
    }
}

impl ConfiguredTargetFn {
    /// The step after the declaration is found.
    fn declared(&self, ctk: ConfiguredTargetKey, target: TargetDecl) -> (r: Step)
        ensures
            r@ == after_declaration(*self, ctk@, target@),
            r.wf(),
    {
        if same_text(&target.kind, "alias") {
            return self.compute_alias(ctk, &target);
        }
        if same_text(&target.kind, "config_setting") {
            return match compute_config_match(&ctk, &target, &self.select_config) {
                Ok(ct) => Step::Done(ComputeResult::Ready(ct)),
                Err(e) => failed(e),
            };
        }
        if !has_select(&target.attrs) {
            return self.selects_resolved(ctk, target);
        }
        let labels = condition_labels(&target.attrs);
        match resolve_deps(&ctk, &labels, &self.repos) {
            Ok(keys) => Step::Conditions(AwaitConditions { ctk, target, labels, keys }),
            Err(e) => failed(e),
        }
    }

    /// The step after the selectable attributes are resolved.
    fn selects_resolved(&self, ctk: ConfiguredTargetKey, target: TargetDecl) -> (r: Step)
        ensures
            r@ == after_selects(ctk@, target@),
            r.wf(),
    {
        let origin = match &target.origin {
            Some(o) => o.clone(),
            None => {
                return failed(
                    Error::Unsupported {
                        what: "analyze a target with no rule definition",
                        detail: "//".to_owned().concat(&ctk.package).concat(":").concat(
                            &ctk.name,
                        ).concat(" was not instantiated by a rule()"),
                    },
                );
            },
        };
        Step::RuleFile(AwaitRuleFile { subject: Subject { ctk, target, origin } })
    }
}

impl AwaitPackage {
    /// The node that is asked for.
    pub fn request(&self) -> (r: Request)
        ensures
            r@ == RequestView::Package(self.ctk@.package),
    {
        Request::Package(self.ctk.package.clone())
    }

    /// Goes on with the package.
    pub fn answer(self, f: &ConfiguredTargetFn, d: Demand) -> (r: Step)
        ensures
            r@ == after_package(*f, self.ctk@, d@),
            r.wf(),
    {
        match d {
            Demand::Missing => waits_for(self.request()),
            Demand::Ready(NodeValue::Package(package)) => match package.get(&self.ctk.name) {
                Some(t) => {
                    let target = t.clone();
                    f.declared(self.ctk, target)
                },
                None => failed(
                    not_found(
                        "target",
                        "//".to_owned().concat(&self.ctk.package).concat(":").concat(
                            &self.ctk.name,
                        ),
                    ),
                ),
            },
            Demand::Ready(_) => failed(invalid("PACKAGE value", "not a Package".to_owned())),
        }
    }
}

// ---- Aliases ----

/// The step that asks for what an alias stands for: its `actual` is one label.
pub open spec fn alias_step(f: ConfiguredTargetFn, ctk: KeyView, target: DeclView) -> StepView {
    match value::lookup(target.attrs, "actual"@) {
        Some(ValueView::Str(actual)) => match label::dependency_node(ctk, actual, f.repos@.dom()) {
            Ok(node) => StepView::Actual {
                ctk,
                actual,
                visibility: visibility::visibility_of(target),
                node,
            },
            Err(e) => StepView::Done(ResultView::Error(e)),
        },
        _ => StepView::Done(
            ResultView::Error(
                ErrorView::Invalid {
                    what: "alias 'actual'"@,
                    detail: "//"@ + ctk.package + ":"@ + ctk.name
                        + " alias requires a single 'actual' label string"@,
                },
            ),
        ),
    }
}

/// The configured target of an alias: the providers of what it stands for as they are, no actions,
/// the outputs that a direct dependent would have, and the visibility of the alias itself.
pub open spec fn aliased(
    ctk: KeyView,
    actual: Seq<char>,
    visibility: Seq<Seq<char>>,
    node: NodeKeyView,
    t: TargetView,
) -> Result<TargetView, ErrorView> {
    match edge(ctk, actual, node, t, Seq::empty()) {
        Err(e) => Err(e),
        Ok(dep_outputs) => Ok(
            TargetView { providers: t.providers, actions: Seq::empty(), dep_outputs, visibility },
        ),
    }
}

/// The result of an alias after what it stands for is answered.
pub open spec fn after_actual(
    ctk: KeyView,
    actual: Seq<char>,
    visibility: Seq<Seq<char>>,
    node: NodeKeyView,
    d: DemandView,
) -> ResultView {
    match d {
        DemandView::Missing => ResultView::Missing(seq![RequestView::Target(node)]),
        DemandView::Ready(NodeValueView::Target(t)) => match aliased(
            ctk,
            actual,
            visibility,
            node,
            t,
        ) {
            Ok(alias) => ResultView::Ready(alias),
            Err(e) => ResultView::Error(e),
        },
        DemandView::Ready(_) => ResultView::Error(
            ErrorView::Invalid { what: "alias actual"@, detail: "not a ConfiguredTarget"@ },
        ),
    }
}

impl ConfiguredTargetFn {
    /// The step that asks for what an alias stands for.
    fn compute_alias(&self, ctk: ConfiguredTargetKey, target: &TargetDecl) -> (r: Step)
        ensures
            r@ == alias_step(*self, ctk@, target@),
            r.wf(),
    {
        if let Some(v) = find_named(&target.attrs, "actual") {
            proof {
                value::lemma_value_view(*v);
            }
            if let BzlValue::Str(s) = v {
                return match resolve_dep(&ctk, s, &self.repos) {
                    Ok(node) => Step::Actual(
                        AwaitActual {
                            ctk,
                            actual: s.clone(),
                            visibility: target_visibility(target),
                            node,
                        },
                    ),
                    Err(e) => failed(e),
                };
            }
        }
        failed(
            invalid(
                "alias 'actual'",
                "//".to_owned().concat(&ctk.package).concat(":").concat(&ctk.name).concat(
                    " alias requires a single 'actual' label string",
                ),
            ),
        )
    }
}

impl AwaitActual {
    /// The node that is asked for.
    pub fn request(&self) -> (r: Request)
        ensures
            r@ == RequestView::Target(self.node@),
    {
        Request::Target(self.node.clone())
    }

    /// Goes on with what the alias stands for.
    pub fn answer(self, d: Demand) -> (r: Step)
        ensures
            r@ == StepView::Done(
                after_actual(
                    self.ctk@,
                    self.actual@,
                    text::texts(self.visibility@),
                    self.node@,
                    d@,
                ),
            ),
            r.wf(),
    {
        match d {
            Demand::Missing => waits_for(self.request()),
            Demand::Ready(NodeValue::Target(t)) => {
                let mut dep_outputs: Vec<DepOutput> = Vec::new();
                assert(seqs::views(dep_outputs@) =~= Seq::empty());
                if let Err(e) = follow_edge(
                    &self.ctk,
                    &self.actual,
                    &self.node,
                    &t,
                    &mut dep_outputs,
                ) {
                    return failed(e);
                }
                let alias = ConfiguredTarget {
                    providers: t.providers,
                    actions: Vec::new(),
                    dep_outputs,
                    visibility: self.visibility,
                };
                assert(alias@.actions =~= Seq::empty());
                Step::Done(ComputeResult::Ready(alias))
            },
            Demand::Ready(_) => failed(
                invalid("alias actual", "not a ConfiguredTarget".to_owned()),
            ),
        }
    }
}

// ---- Selectable attributes ----

/// The step after the conditions are answered.
pub open spec fn after_conditions(
    ctk: KeyView,
    target: DeclView,
    labels: Seq<Seq<char>>,
    keys: Seq<NodeKeyView>,
    demands: Seq<DemandView>,
) -> StepView {
    match configurable::resolved(ctk, target, labels, keys, demands) {
        ResolutionView::Ready(t) => after_selects(ctk, t),
        ResolutionView::Missing(missing) => StepView::Done(
            ResultView::Missing(stage::target_requests(missing)),
        ),
        ResolutionView::Error(e) => StepView::Done(ResultView::Error(e)),
    }
}

impl AwaitConditions {
    /// Goes on with the conditions, which are answered in order.
    pub fn answer(self, f: &ConfiguredTargetFn, demands: Vec<Demand>) -> (r: Step)
        requires
            self.wf(),
            demands@.len() <= self.keys@.len(),
        ensures
            r@ == after_conditions(
                self.ctk@,
                self.target@,
                text::texts(self.labels@),
                seqs::views(self.keys@),
                seqs::views(demands@),
            ),
            r.wf(),
    {
        match resolve_target_selects(&self.ctk, self.target, &self.labels, &self.keys, &demands) {
            SelectResolution::Ready(t) => f.selects_resolved(self.ctk, t),
            SelectResolution::Missing(keys) => Step::Done(
                ComputeResult::Missing(stage::requests_for(keys)),
            ),
            SelectResolution::Error(e) => failed(e),
        }
    }
}

// ---- The rule's file ----

/// The step after the file of the rule is answered.
pub open spec fn after_rule_file(subject: SubjectView, d: DemandView) -> StepView {
    match d {
        DemandView::Missing => StepView::Done(
            ResultView::Missing(seq![RequestView::File(subject.origin.bzl)]),
        ),
        DemandView::Ready(NodeValueView::File { exists }) => if exists {
            StepView::RuleModule { subject }
        } else {
            StepView::Done(
                ResultView::Error(
                    ErrorView::NotFound { what: "rule .bzl"@, detail: subject.origin.bzl },
                ),
            )
        },
        DemandView::Ready(_) => StepView::Done(
            ResultView::Error(
                ErrorView::Invalid {
                    what: "FILE value"@,
                    detail: "rule .bzl dep was not a FileValue"@,
                },
            ),
        ),
    }
}

impl AwaitRuleFile {
    /// The node that is asked for.
    pub fn request(&self) -> (r: Request)
        ensures
            r@ == RequestView::File(self.subject@.origin.bzl),
    {
        Request::File(self.subject.origin.bzl.clone())
    }

    /// Goes on with the file of the rule.
    pub fn answer(self, d: Demand) -> (r: Step)
        ensures
            r@ == after_rule_file(self.subject@, d@),
            r.wf(),
    {
        match d {
            Demand::Missing => waits_for(self.request()),
            Demand::Ready(NodeValue::File { exists }) => if exists {
                Step::RuleModule(AwaitRuleModule { subject: self.subject })
            } else {
                failed(not_found("rule .bzl", self.subject.origin.bzl))
            },
            Demand::Ready(_) => failed(
                invalid("FILE value", "rule .bzl dep was not a FileValue".to_owned()),
            ),
        }
    }
}

// ---- Laws of aliases ----

/// An alias is transparent: to a dependent it publishes the providers of what it stands for, and it
/// adds to the map of outputs what a direct edge would add.
pub proof fn law_aliases_are_transparent(
    ctk: KeyView,
    actual: Seq<char>,
    visibility: Seq<Seq<char>>,
    node: NodeKeyView,
    t: TargetView,
    map: Seq<DepOutputView>,
    owner: KeyView,
)
    requires
        aliased(ctk, actual, visibility, node, t) is Ok,
    ensures
        ({
            let alias = aliased(ctk, actual, visibility, node, t)->Ok_0;
            let dep = key::decoded(node.bytes)->Ok_0;
            &&& alias.providers == t.providers
            &&& alias.visibility == visibility
            &&& target::merged_all(map, target::contribution(ctk, alias), owner)
                == target::merged_all(map, target::contribution(dep, t), owner)
        }),
{
    let alias = aliased(ctk, actual, visibility, node, t)->Ok_0;
    let dep = key::decoded(node.bytes)->Ok_0;
    assert(target::contribution(ctk, alias) =~= alias.dep_outputs);
    target::law_forwarding_is_transparent(map, target::contribution(dep, t), ctk, owner);
}

/// An alias opens nothing: what it stands for has to be visible to it.
pub proof fn law_aliases_respect_visibility(
    ctk: KeyView,
    actual: Seq<char>,
    visibility: Seq<Seq<char>>,
    node: NodeKeyView,
    t: TargetView,
)
    requires
        aliased(ctk, actual, visibility, node, t) is Ok,
    ensures
        key::decoded(node.bytes) matches Ok(dep) && visibility::admitted(
            ctk.package,
            dep.package,
            label::rendered(ctk.package, ctk.name),
            actual,
            t.visibility,
        ) is Ok,
{
}

// ---- Laws of the steps ----

/// An edge counts only where the key of the dependency is readable and the dependency is visible to
/// the package of the target; it then adds what the dependency contributes, in the name of the target.
pub proof fn law_edges_are_checked_before_they_count(
    ctk: KeyView,
    lbl: Seq<char>,
    node: NodeKeyView,
    t: TargetView,
    outputs: Seq<DepOutputView>,
)
    ensures
        key::decoded(node.bytes) matches Err(e) ==> edge(ctk, lbl, node, t, outputs) == Err::<
            Seq<DepOutputView>,
            ErrorView,
        >(e),
        key::decoded(node.bytes) matches Ok(dep) ==> (match visibility::admitted(
            ctk.package,
            dep.package,
            label::rendered(ctk.package, ctk.name),
            lbl,
            t.visibility,
        ) {
            Err(e) => edge(ctk, lbl, node, t, outputs) == Err::<Seq<DepOutputView>, ErrorView>(e),
            Ok(()) => edge(ctk, lbl, node, t, outputs) == target::merged_all(
                outputs,
                target::contribution(dep, t),
                ctk,
            ),
        }),
{
}

/// The analysis of the node of a target starts with the target itself, in all its dimensions; a node
/// that cannot be read fails.
pub proof fn law_analyses_start_with_their_target(ctk: KeyView, k: NodeKeyView)
    ensures
        key::key_fits(ctk) ==> after_start(key::target_node(ctk)) == (StepView::Package { ctk }),
        key::decoded(k.bytes) matches Err(e) ==> after_start(k) == StepView::Done(
            ResultView::Error(e),
        ),
{
    if key::key_fits(ctk) {
        key::law_decode_undoes_encode(ctk, Seq::empty());
        assert(key::key_bytes(ctk) + Seq::empty() =~= key::key_bytes(ctk));
    }
}

/// The package of a target is asked for by its path. The target is the first of its name there; where
/// there is none it is not found, and anything but a package fails.
pub proof fn law_targets_are_found_in_their_package(
    f: ConfiguredTargetFn,
    ctk: KeyView,
    targets: Seq<DeclView>,
    i: int,
    v: NodeValueView,
)
    ensures
        after_package(f, ctk, DemandView::Missing) == StepView::Done(
            ResultView::Missing(seq![RequestView::Package(ctk.package)]),
        ),
        0 <= i < targets.len() && targets[i].name == ctk.name && (forall|j: int|
            0 <= j < i ==> (#[trigger] targets[j]).name != ctk.name) ==> after_package(
            f,
            ctk,
            DemandView::Ready(NodeValueView::Package(targets)),
        ) == after_declaration(f, ctk, targets[i]),
        (forall|j: int| 0 <= j < targets.len() ==> (#[trigger] targets[j]).name != ctk.name)
            ==> after_package(f, ctk, DemandView::Ready(NodeValueView::Package(targets)))
            == StepView::Done(
            ResultView::Error(
                ErrorView::NotFound {
                    what: "target"@,
                    detail: "//"@ + ctk.package + ":"@ + ctk.name,
                },
            ),
        ),
        !(v is Package) ==> after_package(f, ctk, DemandView::Ready(v)) == StepView::Done(
            ResultView::Error(
                ErrorView::Invalid { what: "PACKAGE value"@, detail: "not a Package"@ },
            ),
        ),
{
    decl::law_first_declaration_counts(targets, ctk.name, i);
}

/// An alias asks for the target that its first `actual` names, and keeps its own visibility; an
/// `actual` that is no label, or none at all, fails.
pub proof fn law_aliases_ask_for_what_they_stand_for(
    f: ConfiguredTargetFn,
    ctk: KeyView,
    target: DeclView,
    i: int,
)
    requires
        target.kind == "alias"@,
    ensures
        0 <= i < target.attrs.len() && target.attrs[i].0 == "actual"@ && (forall|j: int|
            0 <= j < i ==> (#[trigger] target.attrs[j]).0 != "actual"@) ==> (
        target.attrs[i].1 matches ValueView::Str(s) ==> (match label::dependency_node(
            ctk,
            s,
            f.repos@.dom(),
        ) {
            Ok(node) => after_declaration(f, ctk, target) == (StepView::Actual {
                ctk,
                actual: s,
                visibility: visibility::visibility_of(target),
                node,
            }),
            Err(e) => after_declaration(f, ctk, target) == StepView::Done(ResultView::Error(e)),
        })),
        (0 <= i < target.attrs.len() && target.attrs[i].0 == "actual"@ && (forall|j: int|
            0 <= j < i ==> (#[trigger] target.attrs[j]).0 != "actual"@) && !(
        target.attrs[i].1 is Str)) || (forall|j: int|
            0 <= j < target.attrs.len() ==> (#[trigger] target.attrs[j]).0 != "actual"@)
            ==> after_declaration(f, ctk, target) == StepView::Done(
            ResultView::Error(
                ErrorView::Invalid {
                    what: "alias 'actual'"@,
                    detail: "//"@ + ctk.package + ":"@ + ctk.name
                        + " alias requires a single 'actual' label string"@,
                },
            ),
        ),
{
    value::lemma_lookup(target.attrs, "actual"@);
}

/// A `config_setting` is matched at once, whatever its attributes are, and asks for nothing.
pub proof fn law_config_settings_are_matched_at_once(
    f: ConfiguredTargetFn,
    ctk: KeyView,
    target: DeclView,
)
    requires
        target.kind == "config_setting"@,
    ensures
        after_declaration(f, ctk, target) == StepView::Done(
            match select::config_match(ctk, target, f.select_config) {
                Ok(t) => ResultView::Ready(t),
                Err(e) => ResultView::Error(e),
            },
        ),
{
    lemma_kinds_differ();
}

/// An alias is no `config_setting`.
proof fn lemma_kinds_differ()
    ensures
        "alias"@ != "config_setting"@,
{
    reveal_strlit("alias");
    reveal_strlit("config_setting");
    assert("alias"@.len() != "config_setting"@.len());
}

/// Any other target without selectable attributes goes on to the file of its rule as it is declared;
/// without a rule it cannot be analysed.
pub proof fn law_plain_targets_go_on_to_their_rule(
    f: ConfiguredTargetFn,
    ctk: KeyView,
    target: DeclView,
)
    requires
        target.kind != "alias"@,
        target.kind != "config_setting"@,
        forall|i: int| 0 <= i < target.attrs.len() ==> !((#[trigger] target.attrs[i]).1 is Select),
    ensures
        after_declaration(f, ctk, target) == (match target.origin {
            Some(origin) => StepView::RuleFile { subject: SubjectView { ctk, target, origin } },
            None => StepView::Done(
                ResultView::Error(
                    ErrorView::Unsupported {
                        what: "analyze a target with no rule definition"@,
                        detail: "//"@ + ctk.package + ":"@ + ctk.name
                            + " was not instantiated by a rule()"@,
                    },
                ),
            ),
        }),
{
}

/// Any other target with a selectable attribute asks for its conditions, each by its own node; the
/// first condition that cannot be resolved fails.
pub proof fn law_selectable_targets_ask_for_their_conditions(
    f: ConfiguredTargetFn,
    ctk: KeyView,
    target: DeclView,
    i: int,
)
    requires
        target.kind != "alias"@,
        target.kind != "config_setting"@,
        0 <= i < target.attrs.len(),
        target.attrs[i].1 is Select,
    ensures
        ({
            let labels = configurable::conditions_of(target.attrs);
            let repos = f.repos@.dom();
            let step = after_declaration(f, ctk, target);
            &&& step is Conditions || step is Done
            &&& step is Conditions ==> {
                &&& step->Conditions_ctk == ctk
                &&& step->Conditions_target == target
                &&& step->Conditions_labels == labels
                &&& step->Conditions_keys.len() == labels.len()
                &&& forall|k: int|
                    0 <= k < labels.len() ==> label::dependency_node(ctk, labels[k], repos) == Ok::<
                        NodeKeyView,
                        ErrorView,
                    >(#[trigger] step->Conditions_keys[k])
            }
            &&& step is Done ==> exists|k: int|
                0 <= k < labels.len() && (label::dependency_node(
                    ctk,
                    #[trigger] labels[k],
                    repos,
                ) matches Err(e) && step == StepView::Done(ResultView::Error(e))) && forall|j: int|
                    0 <= j < k ==> label::dependency_node(ctk, #[trigger] labels[j], repos) is Ok
        }),
{
    let labels = configurable::conditions_of(target.attrs);
    let repos = f.repos@.dom();
    assert(target.attrs[i].1 is Select);
    label::law_groups_are_resolved_one_by_one(ctk, labels, repos);
    if let Err(e) = label::dependency_nodes(ctk, labels, repos) {
        let k = choose|k: int|
            0 <= k < labels.len() && label::dependency_node(ctk, #[trigger] labels[k], repos)
                == Err::<NodeKeyView, ErrorView>(e) && forall|j: int|
                0 <= j < k ==> label::dependency_node(ctk, #[trigger] labels[j], repos) is Ok;
        assert(label::dependency_node(ctk, labels[k], repos) is Err);
    }
}

/// After the conditions: those that are not built are waited for, a failure ends the analysis, and a
/// resolved target goes on to the file of its rule.
pub proof fn law_resolved_targets_go_on_to_their_rule(
    ctk: KeyView,
    target: DeclView,
    labels: Seq<Seq<char>>,
    keys: Seq<NodeKeyView>,
    demands: Seq<DemandView>,
)
    ensures
        after_conditions(ctk, target, labels, keys, demands) == (match configurable::resolved(
            ctk,
            target,
            labels,
            keys,
            demands,
        ) {
            ResolutionView::Error(e) => StepView::Done(ResultView::Error(e)),
            ResolutionView::Missing(missing) => StepView::Done(
                ResultView::Missing(
                    missing.map_values(|k: NodeKeyView| RequestView::Target(k)),
                ),
            ),
            ResolutionView::Ready(t) => match t.origin {
                Some(origin) => StepView::RuleFile {
                    subject: SubjectView { ctk, target: t, origin },
                },
                None => StepView::Done(
                    ResultView::Error(
                        ErrorView::Unsupported {
                            what: "analyze a target with no rule definition"@,
                            detail: "//"@ + ctk.package + ":"@ + ctk.name
                                + " was not instantiated by a rule()"@,
                        },
                    ),
                ),
            },
        }),
{
}

/// An alias has the providers of what it stands for, no actions, its own visibility, and the outputs
/// of the one edge that it follows. It waits for what it stands for, and anything but a configured
/// target fails.
pub proof fn law_aliases_have_no_actions(
    ctk: KeyView,
    actual: Seq<char>,
    visibility: Seq<Seq<char>>,
    node: NodeKeyView,
    t: TargetView,
    v: NodeValueView,
)
    ensures
        after_actual(ctk, actual, visibility, node, DemandView::Missing) == ResultView::Missing(
            seq![RequestView::Target(node)],
        ),
        ({
            let r = after_actual(
                ctk,
                actual,
                visibility,
                node,
                DemandView::Ready(NodeValueView::Target(t)),
            );
            match edge(ctk, actual, node, t, Seq::empty()) {
                Err(e) => r == ResultView::Error(e),
                Ok(outputs) => r matches ResultView::Ready(a) && a.providers == t.providers
                    && a.actions.len() == 0 && a.dep_outputs == outputs && a.visibility
                    == visibility,
            }
        }),
        !(v is Target) ==> after_actual(ctk, actual, visibility, node, DemandView::Ready(v))
            == ResultView::Error(
            ErrorView::Invalid { what: "alias actual"@, detail: "not a ConfiguredTarget"@ },
        ),
{
}

/// The file of the rule is asked for by the path of the rule and has to exist; the target goes on to
/// the module unchanged.
pub proof fn law_rule_files_have_to_exist(subject: SubjectView, exists: bool, v: NodeValueView)
    ensures
        after_rule_file(subject, DemandView::Missing) == StepView::Done(
            ResultView::Missing(seq![RequestView::File(subject.origin.bzl)]),
        ),
        after_rule_file(subject, DemandView::Ready(NodeValueView::File { exists: true })) == (
        StepView::RuleModule { subject }),
        after_rule_file(subject, DemandView::Ready(NodeValueView::File { exists: false }))
            == StepView::Done(
            ResultView::Error(
                ErrorView::NotFound { what: "rule .bzl"@, detail: subject.origin.bzl },
            ),
        ),
        !(v is File) ==> after_rule_file(subject, DemandView::Ready(v)) == StepView::Done(
            ResultView::Error(
                ErrorView::Invalid {
                    what: "FILE value"@,
                    detail: "rule .bzl dep was not a FileValue"@,
                },
            ),
        ),
{
}

/// Each step asks for the node that its answer is about: the package of the target, the target that
/// an alias stands for, and the file of the rule.
pub proof fn law_steps_ask_for_what_they_wait_for(
    p: AwaitPackage,
    a: AwaitActual,
    f: AwaitRuleFile,
    r: Request,
)
    ensures
        call_ensures(AwaitPackage::request, (&p,), r) ==> r@ == RequestView::Package(
            p.ctk.package@,
        ),
        call_ensures(AwaitActual::request, (&a,), r) ==> r@ == RequestView::Target(a.node@),
        call_ensures(AwaitRuleFile::request, (&f,), r) ==> r@ == RequestView::File(
            f.subject.origin.bzl@,
        ),
{
}

/// An analysis goes by what it is made with: the given repositories and configurations, and none
/// where none are given.
pub proof fn law_analyses_go_by_what_they_are_made_with(
    repos: ExternalRepos,
    select_config: SelectConfig,
    f: ConfiguredTargetFn,
    name: Seq<char>,
)
    ensures
        call_ensures(ConfiguredTargetFn::new, (), f) ==> !f.repos@.dom().contains(name)
            && !f.select_config.platforms@.dom().contains(name)
            && !f.select_config.values@.dom().contains(name),
        call_ensures(ConfiguredTargetFn::new_with_repos, (repos,), f) ==> f.repos == repos
            && !f.select_config.platforms@.dom().contains(name)
            && !f.select_config.values@.dom().contains(name),
        call_ensures(
            ConfiguredTargetFn::new_with_repos_and_select,
            (repos, select_config),
            f,
        ) ==> f.repos == repos && f.select_config == select_config,
{
}

} // verus!
