//! Declarations: providers, actions, targets, modules and packages.

use vstd::prelude::*;
use crate::seqs::{self, Same};
use crate::text::{self, same_optional, same_text, same_texts};
use crate::value::{self, copy_named, find_named, same_named, BzlValue, ValueView};

verus! {

/// The identity of a provider: its name and the module that defines it, which a builtin lacks.
/// Providers of one name from two modules are two providers.
#[derive(Clone, PartialEq, Eq, Debug)]
pub struct ProviderId {
    pub bzl: Option<String>,
    pub name: String,
}

/// The model of a [`ProviderId`].
pub struct ProviderIdView {
    pub bzl: Option<Seq<char>>,
    pub name: Seq<char>,
}

impl View for ProviderId {
    type V = ProviderIdView;

    open spec fn view(&self) -> ProviderIdView {
        ProviderIdView { bzl: text::optional(self.bzl), name: self.name@ }
    }
}

/// The identity of the builtin provider with the given name.
pub open spec fn builtin(name: Seq<char>) -> ProviderIdView {
    ProviderIdView { bzl: None, name }
}

impl ProviderId {
    /// The identity of the builtin provider with the given name.
    pub fn from_name(name: &str) -> (r: Self)
        ensures
            r@ == builtin(name@),
    {
        ProviderId { bzl: None, name: name.to_owned() }
    }
}

impl Same for ProviderId {
    fn same(&self, other: &Self) -> (r: bool) {
        same_optional(&self.bzl, &other.bzl) && same_text(&self.name, &other.name)
    }
}

/// One provider that a target publishes, with its fields.
#[derive(Clone, PartialEq, Eq, Debug)]
pub struct ProviderInstance {
    pub provider: ProviderId,
    pub fields: Vec<(String, BzlValue)>,
}

/// The model of a [`ProviderInstance`].
pub struct ProviderView {
    pub provider: ProviderIdView,
    pub fields: Seq<(Seq<char>, ValueView)>,
}

impl View for ProviderInstance {
    type V = ProviderView;

    open spec fn view(&self) -> ProviderView {
        ProviderView { provider: self.provider@, fields: value::named_view(self.fields@) }
    }
}

impl ProviderInstance {
    /// The field of the given name.
    pub fn get(&self, name: &str) -> (r: Option<&BzlValue>)
        ensures
            match r {
                Some(v) => value::lookup(self@.fields, name@) == Some(v@),
                None => value::lookup(self@.fields, name@) is None,
            },
    {
        find_named(&self.fields, name)
    }
}

impl Same for ProviderInstance {
    fn same(&self, other: &Self) -> (r: bool) {
        self.provider.same(&other.provider) && same_named(&self.fields, &other.fields)
    }
}

/// An action that a rule declares: what it runs, on which files and for which files.
#[derive(Clone, PartialEq, Eq, Debug)]
pub struct ActionTemplate {
    pub mnemonic: String,
    pub argv: Vec<String>,
    pub inputs: Vec<String>,
    pub outputs: Vec<String>,
    pub env: Vec<(String, String)>,
}

/// The model of an [`ActionTemplate`].
pub struct ActionView {
    pub mnemonic: Seq<char>,
    pub argv: Seq<Seq<char>>,
    pub inputs: Seq<Seq<char>>,
    pub outputs: Seq<Seq<char>>,
    pub env: Seq<(Seq<char>, Seq<char>)>,
}

impl View for ActionTemplate {
    type V = ActionView;

    open spec fn view(&self) -> ActionView {
        ActionView {
            mnemonic: self.mnemonic@,
            argv: text::texts(self.argv@),
            inputs: text::texts(self.inputs@),
            outputs: text::texts(self.outputs@),
            env: value::text_pairs(self.env@),
        }
    }
}

impl Same for ActionTemplate {
    fn same(&self, other: &Self) -> (r: bool) {
        same_text(&self.mnemonic, &other.mnemonic) && same_texts(&self.argv, &other.argv)
            && same_texts(&self.inputs, &other.inputs) && same_texts(&self.outputs, &other.outputs)
            && same_text_pairs(&self.env, &other.env)
    }
}

/// Whether two lists of pairs of strings are equal.
fn same_text_pairs(a: &Vec<(String, String)>, b: &Vec<(String, String)>) -> (r: bool)
    ensures
        r == (value::text_pairs(a@) == value::text_pairs(b@)),
{
    if a.len() != b.len() {
        assert(value::text_pairs(a@).len() != value::text_pairs(b@).len());
        return false;
    }
    for i in 0..a.len()
        invariant
            a@.len() == b@.len(),
            forall|j: int|
                0 <= j < i ==> (#[trigger] a@[j]).0@ == b@[j].0@ && a@[j].1@ == b@[j].1@,
    {
        if !same_text(&a[i].0, &b[i].0) || !same_text(&a[i].1, &b[i].1) {
            assert(value::text_pairs(a@)[i as int] != value::text_pairs(b@)[i as int]);
            return false;
        }
    }
    assert(value::text_pairs(a@) =~= value::text_pairs(b@));
    true
}

/// Where the rule of a target is defined.
#[derive(PartialEq, Eq, Debug)]
pub struct RuleOrigin {
    pub bzl: String,
    pub name: String,
}

/// The model of a [`RuleOrigin`].
pub struct OriginView {
    pub bzl: Seq<char>,
    pub name: Seq<char>,
}

impl View for RuleOrigin {
    type V = OriginView;

    open spec fn view(&self) -> OriginView {
        OriginView { bzl: self.bzl@, name: self.name@ }
    }
}

impl Clone for RuleOrigin {
    fn clone(&self) -> (r: Self)
        ensures
            r == *self,
    {
        RuleOrigin { bzl: self.bzl.clone(), name: self.name.clone() }
    }
}

/// A target as its package declares it.
#[derive(PartialEq, Eq, Debug)]
pub struct TargetDecl {
    pub kind: String,
    pub name: String,
    pub attrs: Vec<(String, BzlValue)>,
    pub origin: Option<RuleOrigin>,
}

/// The model of a [`TargetDecl`].
pub struct DeclView {
    pub kind: Seq<char>,
    pub name: Seq<char>,
    pub attrs: Seq<(Seq<char>, ValueView)>,
    pub origin: Option<OriginView>,
}

impl View for TargetDecl {
    type V = DeclView;

    open spec fn view(&self) -> DeclView {
        DeclView {
            kind: self.kind@,
            name: self.name@,
            attrs: value::named_view(self.attrs@),
            origin: match self.origin {
                Some(o) => Some(o@),
                None => None,
            },
        }
    }
}

impl Clone for TargetDecl {
    fn clone(&self) -> (r: Self)
        ensures
            r@ == self@,
    {
        TargetDecl {
            kind: self.kind.clone(),
            name: self.name.clone(),
            attrs: copy_named(&self.attrs),
            origin: match &self.origin {
                Some(o) => Some(o.clone()),
                None => None,
            },
        }
    }
}

/// A loaded module: what it exports, by name.
#[derive(Clone, PartialEq, Eq, Debug)]
pub struct BzlModule {
    pub exports: Vec<(String, BzlValue)>,
}

impl View for BzlModule {
    type V = Seq<(Seq<char>, ValueView)>;

    open spec fn view(&self) -> Seq<(Seq<char>, ValueView)> {
        value::named_view(self.exports@)
    }
}

impl BzlModule {
    /// The export of the given name.
    pub fn get(&self, name: &str) -> (r: Option<&BzlValue>)
        ensures
            match r {
                Some(v) => value::lookup(self@, name@) == Some(v@),
                None => value::lookup(self@, name@) is None,
            },
    {
        find_named(&self.exports, name)
    }
}

/// A loaded package: the targets that it declares.
#[derive(Clone, PartialEq, Eq, Debug)]
pub struct Package {
    pub targets: Vec<TargetDecl>,
}

impl View for Package {
    type V = Seq<DeclView>;

    open spec fn view(&self) -> Seq<DeclView> {
        seqs::views(self.targets@)
    }
}

/// The declaration of the given name among those of a package.
pub open spec fn declared(targets: Seq<DeclView>, name: Seq<char>) -> Option<DeclView> {
    seqs::first(targets, |t: DeclView| t.name == name)
}

impl Package {
    /// The declaration of the given name.
    pub fn get(&self, name: &str) -> (r: Option<&TargetDecl>)
        ensures
            match r {
                Some(t) => declared(self@, name@) == Some(t@),
                None => declared(self@, name@) is None,
            },
    {
        let ghost p = |t: DeclView| t.name == name@;
        for i in 0..self.targets.len()
            invariant
                p == (|t: DeclView| t.name == name@),
                forall|j: int| 0 <= j < i ==> !p(#[trigger] self@[j]),
        {
            if same_text(&self.targets[i].name, name) {
                proof {
                    assert(seqs::first_where(self@, p, i as int));
                    seqs::lemma_first_at(self@, p, i as int);
                }
                return Some(&self.targets[i]);
            }
        }
        None
    }
}

// ---- Laws of declarations ----

/// A package declares what stands first under a name.
pub proof fn law_first_declaration_counts(targets: Seq<DeclView>, name: Seq<char>, i: int)
    ensures
        0 <= i < targets.len() && targets[i].name == name && (forall|j: int|
            0 <= j < i ==> (#[trigger] targets[j]).name != name) ==> declared(targets, name)
            == Some(targets[i]),
        declared(targets, name) matches Some(t) ==> t.name == name && targets.contains(t),
        declared(targets, name) is None ==> forall|j: int|
            0 <= j < targets.len() ==> (#[trigger] targets[j]).name != name,
{
    let p = |t: DeclView| t.name == name;
    if 0 <= i < targets.len() && targets[i].name == name && forall|j: int|
        0 <= j < i ==> (#[trigger] targets[j]).name != name {
        assert(seqs::first_where(targets, p, i));
        seqs::lemma_first_at(targets, p, i);
    }
    if declared(targets, name) is Some {
        let k = choose|k: int| seqs::first_where(targets, p, k);
        assert(seqs::first_where(targets, p, k));
        seqs::lemma_first_at(targets, p, k);
    } else {
        assert forall|j: int| 0 <= j < targets.len() implies (#[trigger] targets[j]).name
            != name by {
            if p(targets[j]) {
                seqs::lemma_first_exists(targets, p, j);
            }
        }
    }
}

/// A builtin provider is known by its name and comes from no module.
pub proof fn law_builtins_have_no_module(name: Seq<char>, id: ProviderIdView)
    ensures
        id == builtin(name) <==> id.bzl is None && id.name == name,
{
}

// ---- Laws of models ----

/// The model of a declaration tells all of it, and so do those of its origin, of a provider and of an
/// action.
pub proof fn law_models_tell_the_whole_declaration(
    t: TargetDecl,
    o: RuleOrigin,
    p: ProviderInstance,
    a: ActionTemplate,
)
    ensures
        t@.kind == t.kind@,
        t@.name == t.name@,
        t@.attrs == value::named_view(t.attrs@),
        t.origin is None ==> t@.origin is None,
        t.origin matches Some(x) ==> t@.origin == Some(x@),
        o@.bzl == o.bzl@,
        o@.name == o.name@,
        p@.provider.bzl == text::optional(p.provider.bzl),
        p@.provider.name == p.provider.name@,
        p@.fields == value::named_view(p.fields@),
        a@.mnemonic == a.mnemonic@,
        a@.argv == text::texts(a.argv@),
        a@.inputs == text::texts(a.inputs@),
        a@.outputs == text::texts(a.outputs@),
        a@.env == value::text_pairs(a.env@),
{
}

/// The model of a module tells all of its exports and that of a package all of its declarations, in
/// order.
pub proof fn law_models_tell_all_exports_and_declarations(m: BzlModule, p: Package)
    ensures
        m@ == value::named_view(m.exports@),
        p@.len() == p.targets@.len(),
        forall|i: int| 0 <= i < p@.len() ==> #[trigger] p@[i] == p.targets@[i]@,
{
}

/// A builtin provider has the given name and no module; a field, an export and a declaration are the
/// first of their name, and there is none only where none has the name.
pub proof fn law_names_lead_to_the_first(
    name: &str,
    id: ProviderId,
    p: ProviderInstance,
    m: BzlModule,
    k: Package,
    v: Option<&BzlValue>,
    t: Option<&TargetDecl>,
    i: int,
)
    ensures
        call_ensures(ProviderId::from_name, (name,), id) ==> id.bzl is None && id.name@ == name@,
        call_ensures(ProviderInstance::get, (&p, name), v) ==> leads_to_first(
            p.fields@,
            name@,
            v,
            i,
        ),
        call_ensures(BzlModule::get, (&m, name), v) ==> leads_to_first(m.exports@, name@, v, i),
        call_ensures(Package::get, (&k, name), t) && 0 <= i < k.targets@.len()
            && k.targets@[i].name@ == name@ && (forall|j: int|
            0 <= j < i ==> (#[trigger] k.targets@[j]).name@ != name@) ==> (t matches Some(x) && x@
            == k.targets@[i]@),
        call_ensures(Package::get, (&k, name), t) && t is None ==> forall|j: int|
            0 <= j < k.targets@.len() ==> (#[trigger] k.targets@[j]).name@ != name@,
{
    lemma_leads_to_first(p.fields@, name@, i);
    lemma_leads_to_first(m.exports@, name@, i);
    law_first_declaration_counts(k@, name@, i);
    assert forall|j: int| 0 <= j < k.targets@.len() implies (#[trigger] k.targets@[j]).name@
        == k@[j].name by {}
    if declared(k@, name@) is None {
        assert forall|j: int| 0 <= j < k.targets@.len() implies (#[trigger] k.targets@[j]).name@
            != name@ by {
            assert(k@[j].name != name@);
        }
    }
}

/// Whether a value is that of position `i` where this is the first of the name, and is absent only
/// where no entry has the name.
pub open spec fn leads_to_first(
    entries: Seq<(String, BzlValue)>,
    name: Seq<char>,
    v: Option<&BzlValue>,
    i: int,
) -> bool {
    &&& 0 <= i < entries.len() && entries[i].0@ == name && (forall|j: int|
        0 <= j < i ==> (#[trigger] entries[j]).0@ != name) ==> (v matches Some(x) && x@
        == entries[i].1@)
    &&& v is None ==> forall|j: int| 0 <= j < entries.len() ==> (#[trigger] entries[j]).0@ != name
}

/// What a name leads to among entries is the first of that name.
proof fn lemma_leads_to_first(entries: Seq<(String, BzlValue)>, name: Seq<char>, i: int)
    ensures
        forall|v: Option<&BzlValue>|
            (match v {
                Some(x) => value::lookup(value::named_view(entries), name) == Some(x@),
                None => value::lookup(value::named_view(entries), name) is None,
            }) ==> #[trigger] leads_to_first(entries, name, v, i),
{
    let all = value::named_view(entries);
    value::lemma_lookup(all, name);
    assert forall|j: int| 0 <= j < entries.len() implies (#[trigger] entries[j]).0@ == all[j].0
        && entries[j].1@ == all[j].1 by {}
    if 0 <= i < entries.len() && entries[i].0@ == name && forall|j: int|
        0 <= j < i ==> (#[trigger] entries[j]).0@ != name {
        assert(all[i].0 == name);
        assert forall|j: int| 0 <= j < i implies (#[trigger] all[j]).0 != name by {
            assert(entries[j].0@ != name);
        }
    }
    if value::lookup(all, name) is None {
        assert forall|j: int| 0 <= j < entries.len() implies (#[trigger] entries[j]).0@ != name by {
            assert(all[j].0 != name);
        }
    }
}

} // verus!
