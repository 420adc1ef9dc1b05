//! The nodes of the build graph that an analysis asks for, and the answers it gets.

use vstd::prelude::*;
use crate::decl::{BzlModule, DeclView, Package};
use crate::key::{NodeKey, NodeKeyView};
use crate::seqs::{self, Same};
use crate::string_map::StringMap;
use crate::target::{ConfiguredTarget, TargetView};
use crate::text;
use crate::value::{BzlValue, ValueView};

verus! {

/// A toolchain type that is asked for.
#[derive(Clone, PartialEq, Eq, Debug)]
pub struct ToolchainTypeReq {
    pub toolchain_type: String,
    pub mandatory: bool,
}

/// A set of toolchain types to resolve for a configuration.
#[derive(Clone, PartialEq, Eq, Debug)]
pub struct ToolchainContextKey {
    pub configuration: String,
    pub types: Vec<ToolchainTypeReq>,
    pub exec_constraints: Vec<String>,
    pub force_exec_platform: Option<String>,
    pub debug_target: bool,
}

/// A node that an analysis asks for.
#[derive(PartialEq, Eq, Debug)]
pub enum Request {
    /// The package of the given path.
    Package(String),
    /// The file of the given path.
    File(String),
    /// The module that defines a rule, by its path.
    RuleModule(String),
    /// A module that another loads: its path and the repository that it belongs to.
    LoadedModule { path: String, context: Option<String> },
    /// A configured target.
    Target(NodeKey),
    /// The toolchains for some toolchain types.
    Toolchains(ToolchainContextKey),
}

/// What a node holds.
pub enum NodeValue {
    Package(Package),
    File { exists: bool },
    Module(BzlModule),
    Target(ConfiguredTarget),
    /// The resolved toolchains, by type.
    Toolchains(StringMap<BzlValue>),
    /// A value that no analysis reads.
    Other,
}

/// The answer to a request: the node is not built yet, or it holds a value.
pub enum Demand {
    Missing,
    Ready(NodeValue),
}

// ---- Models ----

/// The model of a [`ToolchainTypeReq`].
pub struct TypeReqView {
    pub toolchain_type: Seq<char>,
    pub mandatory: bool,
}

impl View for ToolchainTypeReq {
    type V = TypeReqView;

    open spec fn view(&self) -> TypeReqView {
        TypeReqView { toolchain_type: self.toolchain_type@, mandatory: self.mandatory }
    }
}

/// The model of a [`ToolchainContextKey`].
pub struct ContextKeyView {
    pub configuration: Seq<char>,
    pub types: Seq<TypeReqView>,
    pub exec_constraints: Seq<Seq<char>>,
    pub force_exec_platform: Option<Seq<char>>,
    pub debug_target: bool,
}

impl View for ToolchainContextKey {
    type V = ContextKeyView;

    open spec fn view(&self) -> ContextKeyView {
        ContextKeyView {
            configuration: self.configuration@,
            types: seqs::views(self.types@),
            exec_constraints: text::texts(self.exec_constraints@),
            force_exec_platform: text::optional(self.force_exec_platform),
            debug_target: self.debug_target,
        }
    }
}

/// The model of a [`Request`].
pub enum RequestView {
    Package(Seq<char>),
    File(Seq<char>),
    RuleModule(Seq<char>),
    LoadedModule { path: Seq<char>, context: Option<Seq<char>> },
    Target(NodeKeyView),
    Toolchains(ContextKeyView),
}

impl View for Request {
    type V = RequestView;

    open spec fn view(&self) -> RequestView {
        match self {
            Request::Package(p) => RequestView::Package(p@),
            Request::File(p) => RequestView::File(p@),
            Request::RuleModule(p) => RequestView::RuleModule(p@),
            Request::LoadedModule { path, context } => RequestView::LoadedModule {
                path: path@,
                context: text::optional(*context),
            },
            Request::Target(k) => RequestView::Target(k@),
            Request::Toolchains(k) => RequestView::Toolchains(k@),
        }
    }
}

/// The model of a [`NodeValue`].
pub enum NodeValueView {
    Package(Seq<DeclView>),
    File { exists: bool },
    Module(Seq<(Seq<char>, ValueView)>),
    Target(TargetView),
    Toolchains(Map<Seq<char>, ValueView>),
    Other,
}

/// The models of the values of a map.
pub open spec fn value_map(m: Map<Seq<char>, BzlValue>) -> Map<Seq<char>, ValueView> {
    m.map_values(|v: BzlValue| v@)
}

impl View for NodeValue {
    type V = NodeValueView;

    open spec fn view(&self) -> NodeValueView {
        match self {
            NodeValue::Package(p) => NodeValueView::Package(p@),
            NodeValue::File { exists } => NodeValueView::File { exists: *exists },
            NodeValue::Module(m) => NodeValueView::Module(m@),
            NodeValue::Target(t) => NodeValueView::Target(t@),
            NodeValue::Toolchains(m) => NodeValueView::Toolchains(value_map(m@)),
            NodeValue::Other => NodeValueView::Other,
        }
    }
}

/// The model of a [`Demand`].
pub enum DemandView {
    Missing,
    Ready(NodeValueView),
}

impl View for Demand {
    type V = DemandView;

    open spec fn view(&self) -> DemandView {
        match self {
            Demand::Missing => DemandView::Missing,
            Demand::Ready(v) => DemandView::Ready(v@),
        }
    }
}

// ---- Groups of requests ----

/// The nodes of a group that are not built yet, in order.
pub open spec fn missing_among(keys: Seq<NodeKeyView>, demands: Seq<DemandView>) -> Seq<NodeKeyView>
    decreases demands.len(),
{
    if demands.len() == 0 {
        Seq::empty()
    } else {
        let before = missing_among(keys, demands.drop_last());
        if demands.last() is Missing {
            before.push(keys[demands.len() - 1])
        } else {
            before
        }
    }
}

/// The nodes of a group that are not built yet.
pub fn missing_keys(keys: &Vec<NodeKey>, demands: &Vec<Demand>) -> (r: Vec<NodeKey>)
    requires
        demands@.len() <= keys@.len(),
    ensures
        seqs::views(r@) == missing_among(seqs::views(keys@), seqs::views(demands@)),
{
    let ghost ks = seqs::views(keys@);
    let ghost ds = seqs::views(demands@);
    let mut r: Vec<NodeKey> = Vec::new();
    assert(seqs::views(r@) =~= missing_among(ks, ds.take(0)));
    for i in 0..demands.len()
        invariant
            demands@.len() <= keys@.len(),
            ks == seqs::views(keys@),
            ds == seqs::views(demands@),
            seqs::views(r@) == missing_among(ks, ds.take(i as int)),
    {
        assert(ds.take(i + 1).drop_last() =~= ds.take(i as int));
        if let Demand::Missing = &demands[i] {
            let ghost before = seqs::views(r@);
            r.push(keys[i].clone());
            assert(seqs::views(r@) =~= before.push(ks[i as int]));
        }
    }
    assert(ds.take(demands@.len() as int) =~= ds);
    r
}

// ---- Configured targets as node values ----

/// How a value is kept in the build graph.
#[derive(Clone, Copy, PartialEq, Eq, Debug)]
pub struct ValuePolicy {
    pub comparable: bool,
    pub always_dirty: bool,
    pub shareable: bool,
    pub serializable: bool,
    pub process_local: bool,
}

impl ConfiguredTarget {
    /// A configured target can be compared, shared and serialized.
    pub fn policy(&self) -> (r: ValuePolicy)
        ensures
            r == (ValuePolicy {
                comparable: true,
                always_dirty: false,
                shareable: true,
                serializable: true,
                process_local: false,
            }),
    {
        ValuePolicy {
            comparable: true,
            always_dirty: false,
            shareable: true,
            serializable: true,
            process_local: false,
        }
    }

    /// Whether a node holds the same configured target.
    pub fn value_eq(&self, other: &NodeValue) -> (r: bool)
        ensures
            r == (other@ == NodeValueView::Target(self@)),
    {
        match other {
            NodeValue::Target(t) => self.same(t),
            _ => false,
        }
    }
}

// ---- Laws of groups ----

/// What a group lacks is told node by node, in order: a node is lacking where its answer is, and not
/// where it holds a value.
pub proof fn law_missing_nodes_are_told_one_by_one(
    keys: Seq<NodeKeyView>,
    demands: Seq<DemandView>,
    k: NodeKeyView,
    d: DemandView,
)
    requires
        keys.len() == demands.len(),
    ensures
        missing_among(Seq::empty(), Seq::empty()).len() == 0,
        missing_among(keys.push(k), demands.push(d)) == (match d {
            DemandView::Missing => missing_among(keys, demands).push(k),
            DemandView::Ready(_) => missing_among(keys, demands),
        }),
{
    assert(demands.push(d).drop_last() =~= demands);
    lemma_later_keys_do_not_count(keys, keys.push(k), demands);
}

/// Keys behind the answers do not count.
proof fn lemma_later_keys_do_not_count(
    a: Seq<NodeKeyView>,
    b: Seq<NodeKeyView>,
    demands: Seq<DemandView>,
)
    requires
        demands.len() <= a.len() <= b.len(),
        forall|i: int| 0 <= i < a.len() ==> #[trigger] a[i] == b[i],
    ensures
        missing_among(a, demands) == missing_among(b, demands),
    decreases demands.len(),
{
    if demands.len() > 0 {
        lemma_later_keys_do_not_count(a, b, demands.drop_last());
        assert(a[demands.len() - 1] == b[demands.len() - 1]);
    }
}

/// A node is waited for exactly where it was asked for and is not built.
pub proof fn law_missing_nodes_are_those_not_built(
    keys: Seq<NodeKeyView>,
    demands: Seq<DemandView>,
    k: NodeKeyView,
)
    requires
        demands.len() <= keys.len(),
    ensures
        missing_among(keys, demands).contains(k) <==> exists|i: int|
            0 <= i < demands.len() && #[trigger] demands[i] is Missing && keys[i] == k,
    decreases demands.len(),
{
    if demands.len() > 0 {
        let before = demands.drop_last();
        let n = demands.len() - 1;
        law_missing_nodes_are_those_not_built(keys, before, k);
        seqs::lemma_push_contains(missing_among(keys, before), keys[n], k);
        if missing_among(keys, before).contains(k) {
            let i = choose|i: int|
                0 <= i < before.len() && #[trigger] before[i] is Missing && keys[i] == k;
            assert(demands[i] == before[i]);
        }
        if exists|i: int| 0 <= i < demands.len() && #[trigger] demands[i] is Missing && keys[i] == k {
            let i = choose|i: int|
                0 <= i < demands.len() && #[trigger] demands[i] is Missing && keys[i] == k;
            if i < n {
                assert(before[i] == demands[i]);
            }
        }
        if demands[n] is Missing && keys[n] == k {
            assert(demands[n] is Missing);
        }
    }
}

/// The model of a request tells all of it.
pub proof fn law_models_tell_the_whole_request(r: Request, k: ToolchainContextKey, q: ToolchainTypeReq)
    ensures
        r matches Request::Package(p) ==> r@ == RequestView::Package(p@),
        r matches Request::File(p) ==> r@ == RequestView::File(p@),
        r matches Request::RuleModule(p) ==> r@ == RequestView::RuleModule(p@),
        r matches Request::LoadedModule { path, context } ==> r@ == (RequestView::LoadedModule {
            path: path@,
            context: text::optional(context),
        }),
        r matches Request::Target(n) ==> r@ == RequestView::Target(n@),
        r matches Request::Toolchains(c) ==> r@ == RequestView::Toolchains(c@),
        k@.configuration == k.configuration@,
        k@.types == seqs::views(k.types@),
        k@.exec_constraints == text::texts(k.exec_constraints@),
        k@.force_exec_platform == text::optional(k.force_exec_platform),
        k@.debug_target == k.debug_target,
        q@.toolchain_type == q.toolchain_type@,
        q@.mandatory == q.mandatory,
{
}

/// The model of an answer tells whether the node is built, and what it holds.
pub proof fn law_models_tell_the_whole_answer(d: Demand, v: NodeValue)
    ensures
        d is Missing <==> d@ is Missing,
        d matches Demand::Ready(x) ==> d@ == DemandView::Ready(x@),
        v matches NodeValue::Package(p) ==> v@ == NodeValueView::Package(p@),
        v matches NodeValue::File { exists } ==> v@ == (NodeValueView::File { exists }),
        v matches NodeValue::Module(m) ==> v@ == NodeValueView::Module(m@),
        v matches NodeValue::Target(t) ==> v@ == NodeValueView::Target(t@),
        v is Other ==> v@ is Other,
        v matches NodeValue::Toolchains(m) ==> (v@ matches NodeValueView::Toolchains(n) && n.dom()
            == m@.dom() && forall|k: Seq<char>| #[trigger]
            n.dom().contains(k) ==> n[k] == m@[k]@),
{
    if let NodeValue::Toolchains(m) = v {
        assert(value_map(m@).dom() =~= m@.dom());
    }
}

/// A configured target can be compared, shared and serialized, and is neither dirty by itself nor
/// bound to a process. It equals a node exactly where the node holds the same target.
pub proof fn law_configured_targets_can_be_compared(
    t: ConfiguredTarget,
    p: ValuePolicy,
    v: NodeValue,
    r: bool,
)
    ensures
        call_ensures(ConfiguredTarget::policy, (&t,), p) ==> p.comparable && !p.always_dirty
            && p.shareable && p.serializable && !p.process_local,
        call_ensures(ConfiguredTarget::value_eq, (&t, &v), r) ==> (r <==> (v matches NodeValue::Target(
            u,
        ) && u@ == t@)),
{
}

} // verus!
