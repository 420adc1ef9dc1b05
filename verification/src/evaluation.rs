//! The steps of an analysis that lead from the source of the rule to the configured target.

use vstd::prelude::*;
use vstd::utf8;
use crate::decl::{ActionTemplate, ActionView, ProviderInstance, ProviderView};
use crate::error::{self, invalid, Error, ErrorView};
use crate::label::{self, render_label, repo_context_of};
use crate::node::{Demand, DemandView, NodeValue, NodeValueView, Request, RequestView};
use crate::outside::text_of_utf8;
use crate::seqs;
use crate::stage::{
    failed, AwaitEvaluation, AwaitLoad, AwaitLoadPath, AwaitScan, AwaitSource, ComputeResult,
    Inputs, InputsView, Loads, LoadsView, ResultView, Step, StepView,
};
use crate::target::{ConfiguredTarget, TargetView};
use crate::text;
use crate::value::ValueView;
use crate::visibility::{self, target_visibility};

verus! {

// ---- The source ----

/// What came of reading the source of a module.
pub enum SourceRead {
    Bytes(Vec<u8>),
    /// The path leads nowhere.
    Unresolved(Error),
    /// The file cannot be read, for the reason given.
    Unreadable(String),
}

/// The model of a [`SourceRead`].
pub enum SourceView {
    Bytes(Seq<u8>),
    Unresolved(ErrorView),
    Unreadable(Seq<char>),
}

impl View for SourceRead {
    type V = SourceView;

    open spec fn view(&self) -> SourceView {
        match self {
            SourceRead::Bytes(b) => SourceView::Bytes(b@),
            SourceRead::Unresolved(e) => SourceView::Unresolved(e@),
            SourceRead::Unreadable(why) => SourceView::Unreadable(why@),
        }
    }
}

/// The step after the source is read: it has to be text.
pub open spec fn after_source(inputs: InputsView, s: SourceView) -> StepView {
    match s {
        SourceView::Unresolved(e) => StepView::Done(ResultView::Error(e)),
        SourceView::Unreadable(why) => StepView::Done(
            ResultView::Error(ErrorView::Invalid { what: "read rule .bzl"@, detail: why }),
        ),
        SourceView::Bytes(b) => if utf8::valid_utf8(b) {
            StepView::Scan { inputs, source: utf8::decode_utf8(b) }
        } else {
            StepView::Done(
                ResultView::Error(ErrorView::Invalid { what: "rule .bzl"@, detail: "non-utf8"@ }),
            )
        },
    }
}

impl AwaitSource {
    /// The path of the source.
    pub fn path(&self) -> (r: &str)
        ensures
            r@ == self.inputs@.subject.origin.bzl,
    {
        &self.inputs.subject.origin.bzl
    }

    /// Goes on with the source.
    pub fn answer(self, s: SourceRead) -> (r: Step)
        ensures
            r@ == after_source(self.inputs@, s@),
            r.wf(),
    {
        match s {
            SourceRead::Unresolved(e) => failed(e),
            SourceRead::Unreadable(why) => failed(invalid("read rule .bzl", why)),
            SourceRead::Bytes(b) => match text_of_utf8(b) {
                Some(source) => {
                    proof {
                        utf8::encode_utf8_decode_utf8(source@);
                    }
                    Step::Scan(AwaitScan { inputs: self.inputs, source })
                },
                None => failed(invalid("rule .bzl", "non-utf8".to_owned())),
            },
        }
    }
}

// ---- The loads ----

/// The step after some loads are known: the next load is looked for. After the last, what is missing
/// is waited for, else the rule is run.
pub open spec fn next_load(inputs: InputsView, source: Seq<char>, loads: LoadsView) -> StepView {
    if loads.rest.len() > 0 {
        StepView::LoadPath {
            inputs,
            source,
            load: loads.rest[0],
            loads: LoadsView {
                loaded: loads.loaded,
                missing: loads.missing,
                rest: loads.rest.drop_first(),
            },
        }
    } else if loads.missing.len() > 0 {
        StepView::Done(ResultView::Missing(loads.missing))
    } else {
        StepView::Evaluation { inputs, source, loaded: loads.loaded }
    }
}

/// The step after some loads are known.
fn go_on(inputs: Inputs, source: String, loads: Loads) -> (r: Step)
    ensures
        r@ == next_load(inputs@, source@, loads@),
        r.wf(),
{
    if loads.rest.len() > 0 {
        let mut rest = loads.rest;
        let ghost all = text::texts(rest@);
        let load = rest.remove(0);
        assert(text::texts(rest@) =~= all.drop_first());
        Step::LoadPath(
            AwaitLoadPath {
                inputs,
                source,
                load,
                loads: Loads { loaded: loads.loaded, missing: loads.missing, rest },
            },
        )
    } else if loads.missing.len() > 0 {
        Step::Done(ComputeResult::Missing(loads.missing))
    } else {
        Step::Evaluation(AwaitEvaluation { inputs, source, loaded: loads.loaded })
    }
}

/// The step after the source is searched for the modules that it loads.
pub open spec fn after_scan(
    inputs: InputsView,
    source: Seq<char>,
    targets: Result<Seq<Seq<char>>, Seq<char>>,
) -> StepView {
    match targets {
        Err(why) => StepView::Done(
            ResultView::Error(ErrorView::Invalid { what: "rule .bzl load scan"@, detail: why }),
        ),
        Ok(rest) => next_load(
            inputs,
            source,
            LoadsView { loaded: Seq::empty(), missing: Seq::empty(), rest },
        ),
    }
}

/// The model of the loads that were found, or of the reason why the search failed.
pub open spec fn scanned(targets: Result<Vec<String>, String>) -> Result<
    Seq<Seq<char>>,
    Seq<char>,
> {
    match targets {
        Ok(list) => Ok(text::texts(list@)),
        Err(why) => Err(why@),
    }
}

impl AwaitScan {
    /// Goes on with the modules that the source loads, or with the reason why the search failed.
    pub fn answer(self, targets: Result<Vec<String>, String>) -> (r: Step)
        ensures
            r@ == after_scan(self.inputs@, self.source@, scanned(targets)),
            r.wf(),
    {
        match targets {
            Err(why) => failed(invalid("rule .bzl load scan", why)),
            Ok(rest) => {
                let loads = Loads { loaded: Vec::new(), missing: Vec::new(), rest };
                proof {
                    assert(loads@.loaded =~= Seq::empty());
                    assert(loads@.missing =~= Seq::empty());
                }
                go_on(self.inputs, self.source, loads)
            },
        }
    }
}

/// The step after the path of a load is found.
pub open spec fn after_load_path(
    inputs: InputsView,
    source: Seq<char>,
    load: Seq<char>,
    loads: LoadsView,
    path: Result<Seq<char>, ErrorView>,
) -> StepView {
    match path {
        Err(e) => StepView::Done(ResultView::Error(e)),
        Ok(path) => StepView::Load { inputs, source, load, path, loads },
    }
}

impl AwaitLoadPath {
    /// The repository in which the load is looked for: that of the rule's own module.
    pub fn context(&self) -> (r: Option<String>)
        ensures
            text::optional(r) == label::repo_of(self.inputs@.subject.origin.bzl),
    {
        repo_context_of(&self.inputs.subject.origin.bzl)
    }

    /// Goes on with the path of the load, or with the failure to find it.
    pub fn answer(self, path: Result<String, Error>) -> (r: Step)
        ensures
            r@ == after_load_path(
                self.inputs@,
                self.source@,
                self.load@,
                self.loads@,
                error::outcome(path),
            ),
            r.wf(),
    {
        match path {
            Err(e) => failed(e),
            Ok(path) => Step::Load(
                AwaitLoad {
                    inputs: self.inputs,
                    source: self.source,
                    load: self.load,
                    path,
                    loads: self.loads,
                },
            ),
        }
    }
}

/// The request for a loaded module: it is loaded in the repository that it belongs to.
pub open spec fn load_request(path: Seq<char>) -> RequestView {
    RequestView::LoadedModule { path, context: label::repo_of(path) }
}

/// The step after a loaded module is answered.
pub open spec fn after_load(
    inputs: InputsView,
    source: Seq<char>,
    load: Seq<char>,
    path: Seq<char>,
    loads: LoadsView,
    d: Result<DemandView, ErrorView>,
) -> StepView {
    match d {
        Err(e) => StepView::Done(ResultView::Error(e)),
        Ok(DemandView::Missing) => next_load(
            inputs,
            source,
            LoadsView {
                loaded: loads.loaded,
                missing: loads.missing.push(load_request(path)),
                rest: loads.rest,
            },
        ),
        Ok(DemandView::Ready(NodeValueView::Module(m))) => next_load(
            inputs,
            source,
            LoadsView {
                loaded: loads.loaded.push((load, m)),
                missing: loads.missing,
                rest: loads.rest,
            },
        ),
        Ok(DemandView::Ready(_)) => StepView::Done(
            ResultView::Error(
                ErrorView::Invalid {
                    what: "BZL_LOAD value"@,
                    detail: "load '"@ + load + "' of "@ + inputs.subject.origin.bzl
                        + " was not a BzlModuleValue"@,
                },
            ),
        ),
    }
}

impl AwaitLoad {
    /// The node that is asked for.
    pub fn request(&self) -> (r: Request)
        ensures
            r@ == load_request(self.path@),
    {
        Request::LoadedModule { path: self.path.clone(), context: repo_context_of(&self.path) }
    }

    /// Goes on with the loaded module, or with the failure to ask for it.
    pub fn answer(self, d: Result<Demand, Error>) -> (r: Step)
        ensures
            r@ == after_load(
                self.inputs@,
                self.source@,
                self.load@,
                self.path@,
                self.loads@,
                error::outcome(d),
            ),
            r.wf(),
    {
        match d {
            Err(e) => failed(e),
            Ok(Demand::Missing) => {
                let request = self.request();
                let mut loads = self.loads;
                let ghost before = loads@;
                loads.missing.push(request);
                assert(loads@.missing =~= before.missing.push(request@));
                go_on(self.inputs, self.source, loads)
            },
            Ok(Demand::Ready(NodeValue::Module(m))) => {
                let mut loads = self.loads;
                let ghost before = loads@;
                let ghost entry = (self.load@, m@);
                loads.loaded.push((self.load, m));
                assert(loads@.loaded =~= before.loaded.push(entry));
                go_on(self.inputs, self.source, loads)
            },
            Ok(Demand::Ready(_)) => failed(
                invalid(
                    "BZL_LOAD value",
                    "load '".to_owned().concat(&self.load).concat("' of ").concat(
                        &self.inputs.subject.origin.bzl,
                    ).concat(" was not a BzlModuleValue"),
                ),
            ),
        }
    }
}

// ---- The run of the rule ----

/// What the run of a rule yields.
pub struct RuleResult {
    pub providers: Vec<ProviderInstance>,
    pub actions: Vec<ActionTemplate>,
}

/// The model of a [`RuleResult`].
pub struct RuleResultView {
    pub providers: Seq<ProviderView>,
    pub actions: Seq<ActionView>,
}

impl View for RuleResult {
    type V = RuleResultView;

    open spec fn view(&self) -> RuleResultView {
        RuleResultView {
            providers: seqs::views(self.providers@),
            actions: seqs::views(self.actions@),
        }
    }
}

/// The model of a run, or of the reason why it failed.
pub open spec fn run(r: Result<RuleResult, String>) -> Result<RuleResultView, Seq<char>> {
    match r {
        Ok(x) => Ok(x@),
        Err(why) => Err(why@),
    }
}

/// The result after the rule is run: what the rule yields, with the outputs of the dependencies and
/// the visibility of the declaration.
pub open spec fn after_evaluation(
    inputs: InputsView,
    r: Result<RuleResultView, Seq<char>>,
) -> ResultView {
    match r {
        Ok(x) => ResultView::Ready(
            TargetView {
                providers: x.providers,
                actions: x.actions,
                dep_outputs: inputs.deps.outputs,
                visibility: visibility::visibility_of(inputs.subject.target),
            },
        ),
        Err(why) => ResultView::Error(
            ErrorView::Invalid { what: "rule evaluation"@, detail: why },
        ),
    }
}

impl AwaitEvaluation {
    /// The label under which the rule is run.
    pub fn label(&self) -> (r: String)
        ensures
            r@ == label::rendered(
                self.inputs@.subject.ctk.package,
                self.inputs@.subject.ctk.name,
            ),
    {
        render_label(&self.inputs.subject.ctk.package, &self.inputs.subject.ctk.name)
    }

    /// Ends the analysis with what the rule yields, or with the reason why its run failed.
    pub fn answer(self, result: Result<RuleResult, String>) -> (r: Step)
        ensures
            r@ == StepView::Done(after_evaluation(self.inputs@, run(result))),
            r.wf(),
    {
        match result {
            Err(why) => failed(invalid("rule evaluation", why)),
            Ok(x) => {
                let visibility = target_visibility(&self.inputs.subject.target);
                Step::Done(
                    ComputeResult::Ready(
                        ConfiguredTarget {
                            providers: x.providers,
                            actions: x.actions,
                            dep_outputs: self.inputs.deps.outputs,
                            visibility,
                        },
                    ),
                )
            },
        }
    }
}

// ---- Laws of the steps ----

/// The source of a rule is read as the text that it spells; bytes that spell none fail, and so does a
/// source that cannot be found or read, each with its reason.
pub proof fn law_sources_are_text(
    inputs: InputsView,
    source: Seq<char>,
    bytes: Seq<u8>,
    e: ErrorView,
    why: Seq<char>,
)
    ensures
        after_source(inputs, SourceView::Bytes(utf8::encode_utf8(source))) == (StepView::Scan {
            inputs,
            source,
        }),
        !utf8::valid_utf8(bytes) ==> after_source(inputs, SourceView::Bytes(bytes))
            == StepView::Done(
            ResultView::Error(ErrorView::Invalid { what: "rule .bzl"@, detail: "non-utf8"@ }),
        ),
        after_source(inputs, SourceView::Unresolved(e)) == StepView::Done(ResultView::Error(e)),
        after_source(inputs, SourceView::Unreadable(why)) == StepView::Done(
            ResultView::Error(ErrorView::Invalid { what: "read rule .bzl"@, detail: why }),
        ),
{
    utf8::encode_utf8_decode_utf8(source);
    utf8::encode_utf8_valid_utf8(source);
}

/// The loads of a source are taken in order, the first one first. A source without loads goes on to
/// the run of the rule; a failed search ends the analysis with its reason.
pub proof fn law_loads_are_taken_in_order(
    inputs: InputsView,
    source: Seq<char>,
    load: Seq<char>,
    rest: Seq<Seq<char>>,
    why: Seq<char>,
)
    ensures
        after_scan(inputs, source, Err(why)) == StepView::Done(
            ResultView::Error(ErrorView::Invalid { what: "rule .bzl load scan"@, detail: why }),
        ),
        after_scan(inputs, source, Ok(Seq::empty())) == (StepView::Evaluation {
            inputs,
            source,
            loaded: Seq::empty(),
        }),
        after_scan(inputs, source, Ok(seq![load] + rest)) == (StepView::LoadPath {
            inputs,
            source,
            load,
            loads: LoadsView { loaded: Seq::empty(), missing: Seq::empty(), rest },
        }),
{
    let all = seq![load] + rest;
    assert(all.drop_first() =~= rest);
    assert(all[0] == load);
}

/// A load is asked for by the path that was found for it, in the repository that the path belongs to;
/// a path that cannot be found fails.
pub proof fn law_loads_are_asked_for_by_their_path(
    inputs: InputsView,
    source: Seq<char>,
    load: Seq<char>,
    loads: LoadsView,
    path: Seq<char>,
    e: ErrorView,
)
    ensures
        after_load_path(inputs, source, load, loads, Ok(path)) == (StepView::Load {
            inputs,
            source,
            load,
            path,
            loads,
        }),
        after_load_path(inputs, source, load, loads, Err(e)) == StepView::Done(
            ResultView::Error(e),
        ),
        load_request(path) == (RequestView::LoadedModule { path, context: label::repo_of(path) }),
{
}

/// A load that is answered stands behind those before it: among the modules, under the text by which
/// it is loaded, or among the nodes that are waited for. The next load is then looked for; after the
/// last, the analysis waits for what is missing, and else the rule is run on all modules.
pub proof fn law_answered_loads_are_collected(
    inputs: InputsView,
    source: Seq<char>,
    load: Seq<char>,
    path: Seq<char>,
    loads: LoadsView,
    m: Seq<(Seq<char>, ValueView)>,
    v: NodeValueView,
    e: ErrorView,
)
    ensures
        ({
            let ready = after_load(
                inputs,
                source,
                load,
                path,
                loads,
                Ok(DemandView::Ready(NodeValueView::Module(m))),
            );
            let loaded = loads.loaded.push((load, m));
            &&& loads.rest.len() > 0 ==> ready == (StepView::LoadPath {
                inputs,
                source,
                load: loads.rest[0],
                loads: LoadsView {
                    loaded,
                    missing: loads.missing,
                    rest: loads.rest.subrange(1, loads.rest.len() as int),
                },
            })
            &&& loads.rest.len() == 0 && loads.missing.len() > 0 ==> ready == StepView::Done(
                ResultView::Missing(loads.missing),
            )
            &&& loads.rest.len() == 0 && loads.missing.len() == 0 ==> ready
                == (StepView::Evaluation { inputs, source, loaded })
        }),
        ({
            let lacking = after_load(
                inputs,
                source,
                load,
                path,
                loads,
                Ok(DemandView::Missing),
            );
            let missing = loads.missing.push(
                RequestView::LoadedModule { path, context: label::repo_of(path) },
            );
            &&& loads.rest.len() > 0 ==> lacking == (StepView::LoadPath {
                inputs,
                source,
                load: loads.rest[0],
                loads: LoadsView {
                    loaded: loads.loaded,
                    missing,
                    rest: loads.rest.subrange(1, loads.rest.len() as int),
                },
            })
            &&& loads.rest.len() == 0 ==> lacking == StepView::Done(ResultView::Missing(missing))
        }),
        !(v is Module) ==> after_load(inputs, source, load, path, loads, Ok(DemandView::Ready(v)))
            == StepView::Done(
            ResultView::Error(
                ErrorView::Invalid {
                    what: "BZL_LOAD value"@,
                    detail: "load '"@ + load + "' of "@ + inputs.subject.origin.bzl
                        + " was not a BzlModuleValue"@,
                },
            ),
        ),
        after_load(inputs, source, load, path, loads, Err(e)) == StepView::Done(
            ResultView::Error(e),
        ),
{
    assert(loads.rest.drop_first() =~= loads.rest.subrange(1, loads.rest.len() as int));
}

/// The configured target has the providers and the actions that the run of the rule yields, the
/// outputs of the dependencies, and the visibility of the declaration; a failed run fails the
/// analysis with its reason.
pub proof fn law_targets_are_what_the_rule_yields(
    inputs: InputsView,
    x: RuleResultView,
    why: Seq<char>,
)
    ensures
        after_evaluation(inputs, Ok(x)) matches ResultView::Ready(t) && t.providers == x.providers
            && t.actions == x.actions && t.dep_outputs == inputs.deps.outputs && t.visibility
            == visibility::visibility_of(inputs.subject.target),
        after_evaluation(inputs, Err(why)) == ResultView::Error(
            ErrorView::Invalid { what: "rule evaluation"@, detail: why },
        ),
{
}

/// The models of what the caller hands in tell all of it.
pub proof fn law_models_tell_all_that_is_handed_in(
    s: SourceRead,
    list: Vec<String>,
    why: String,
    x: RuleResult,
)
    ensures
        s matches SourceRead::Bytes(b) ==> s@ == SourceView::Bytes(b@),
        s matches SourceRead::Unresolved(e) ==> s@ == SourceView::Unresolved(e@),
        s matches SourceRead::Unreadable(t) ==> s@ == SourceView::Unreadable(t@),
        scanned(Ok(list)) == Ok::<Seq<Seq<char>>, Seq<char>>(text::texts(list@)),
        scanned(Err(why)) == Err::<Seq<Seq<char>>, Seq<char>>(why@),
        run(Ok(x)) == Ok::<RuleResultView, Seq<char>>(x@),
        run(Err(why)) == Err::<RuleResultView, Seq<char>>(why@),
        x@.providers == seqs::views(x.providers@),
        x@.actions == seqs::views(x.actions@),
{
}

/// The source is read at the path of the rule, a load is looked for in the repository of the rule's
/// own module and asked for in the repository of its own path, and the rule is run under the label of
/// the target.
pub proof fn law_steps_name_what_they_wait_for(
    s: AwaitSource,
    p: AwaitLoadPath,
    l: AwaitLoad,
    e: AwaitEvaluation,
    path: &str,
    context: Option<String>,
    request: Request,
    label: String,
)
    ensures
        call_ensures(AwaitSource::path, (&s,), path) ==> path@ == s.inputs.subject.origin.bzl@,
        call_ensures(AwaitLoadPath::context, (&p,), context) ==> text::optional(context)
            == label::repo_of(p.inputs.subject.origin.bzl@),
        call_ensures(AwaitLoad::request, (&l,), request) ==> request@ == (RequestView::LoadedModule {
            path: l.path@,
            context: label::repo_of(l.path@),
        }),
        call_ensures(AwaitEvaluation::label, (&e,), label) ==> label@ == label::rendered(
            e.inputs.subject.ctk.package@,
            e.inputs.subject.ctk.name@,
        ),
{
}

} // verus!
