//! Configured targets: what the analysis of a target yields, and the map from the files that its
//! dependencies declare to the actions that produce them.

use vstd::prelude::*;
use crate::decl::{ActionTemplate, ActionView, ProviderId, ProviderIdView, ProviderInstance, ProviderView};
use crate::error::{Error, ErrorView};
use crate::key::{ConfiguredTargetKey, KeyView};
use crate::text::{self, same_text, same_texts};
use crate::seqs::{self, same_items, Same};

verus! {

/// One file that a dependency declares as an output, with the action that produces it: the target
/// that declares the action and the position of the action there.
#[derive(PartialEq, Eq, Debug)]
pub struct DepOutput {
    pub exec_path: String,
    pub producer_ct: ConfiguredTargetKey,
    pub action_index: u32,
}

/// The model of a [`DepOutput`].
pub struct DepOutputView {
    pub exec_path: Seq<char>,
    pub producer_ct: KeyView,
    pub action_index: u32,
}

impl View for DepOutput {
    type V = DepOutputView;

    open spec fn view(&self) -> DepOutputView {
        DepOutputView {
            exec_path: self.exec_path@,
            producer_ct: self.producer_ct@,
            action_index: self.action_index,
        }
    }
}

impl Clone for DepOutput {
    fn clone(&self) -> (r: Self)
        ensures
            r == *self,
    {
        DepOutput {
            exec_path: self.exec_path.clone(),
            producer_ct: self.producer_ct.clone(),
            action_index: self.action_index,
        }
    }
}

impl Same for DepOutput {
    fn same(&self, other: &Self) -> (r: bool) {
        same_text(&self.exec_path, &other.exec_path) && self.producer_ct.same(&other.producer_ct)
            && self.action_index == other.action_index
    }
}

/// A configured target: the providers it publishes, the actions it declares, where the files of its
/// dependencies come from, and who may depend on it.
#[derive(Clone, PartialEq, Eq, Debug)]
pub struct ConfiguredTarget {
    pub providers: Vec<ProviderInstance>,
    pub actions: Vec<ActionTemplate>,
    /// The outputs of the dependencies, direct and transitive, each with its producing action.
    pub dep_outputs: Vec<DepOutput>,
    /// The visibility labels of the target. Empty is private.
    pub visibility: Vec<String>,
}

/// The model of a [`ConfiguredTarget`].
pub struct TargetView {
    pub providers: Seq<ProviderView>,
    pub actions: Seq<ActionView>,
    pub dep_outputs: Seq<DepOutputView>,
    pub visibility: Seq<Seq<char>>,
}

impl View for ConfiguredTarget {
    type V = TargetView;

    open spec fn view(&self) -> TargetView {
        TargetView {
            providers: seqs::views(self.providers@),
            actions: seqs::views(self.actions@),
            dep_outputs: seqs::views(self.dep_outputs@),
            visibility: text::texts(self.visibility@),
        }
    }
}

/// The instance of the given provider among those that a target publishes.
pub open spec fn published(providers: Seq<ProviderView>, id: ProviderIdView) -> Option<ProviderView> {
    seqs::first(providers, |p: ProviderView| p.provider == id)
}

impl ConfiguredTarget {
    /// The instance of the provider with the given identity.
    pub fn provider(&self, id: &ProviderId) -> (r: Option<&ProviderInstance>)
        ensures
            match r {
                Some(p) => published(self@.providers, id@) == Some(p@),
                None => published(self@.providers, id@) is None,
            },
    {
        let ghost f = |p: ProviderView| p.provider == id@;
        for i in 0..self.providers.len()
            invariant
                f == (|p: ProviderView| p.provider == id@),
                forall|j: int| 0 <= j < i ==> !f(#[trigger] self@.providers[j]),
        {
            if self.providers[i].provider.same(id) {
                proof {
                    assert(seqs::first_where(self@.providers, f, i as int));
                    seqs::lemma_first_at(self@.providers, f, i as int);
                }
                return Some(&self.providers[i]);
            }
        }
        None
    }
}

impl Same for ConfiguredTarget {
    fn same(&self, other: &Self) -> (r: bool) {
        same_items(&self.providers, &other.providers) && same_items(&self.actions, &other.actions)
            && same_items(&self.dep_outputs, &other.dep_outputs) && same_texts(
            &self.visibility,
            &other.visibility,
        )
    }
}

// ---- The map of dependency outputs ----

/// The failure that two producers of one path are answered with.
pub open spec fn conflict(path: Seq<char>, owner: KeyView) -> ErrorView {
    ErrorView::Conflict {
        what: "duplicate dep output"@,
        detail: "//"@ + owner.package + ":"@ + owner.name + ": dep output '"@ + path
            + "' is produced by two distinct dependencies"@,
    }
}

/// A map with one more entry. An entry that is already there adds nothing; a path that is there with
/// another producer is a conflict.
pub open spec fn merged(map: Seq<DepOutputView>, entry: DepOutputView, owner: KeyView) -> Result<
    Seq<DepOutputView>,
    ErrorView,
> {
    match seqs::first(map, |d: DepOutputView| d.exec_path == entry.exec_path) {
        None => Ok(map.push(entry)),
        Some(there) => if there == entry {
            Ok(map)
        } else {
            Err(conflict(entry.exec_path, owner))
        },
    }
}

/// A map with further entries, one after the other. The first conflict ends it.
pub open spec fn merged_all(
    map: Seq<DepOutputView>,
    entries: Seq<DepOutputView>,
    owner: KeyView,
) -> Result<Seq<DepOutputView>, ErrorView>
    decreases entries.len(),
{
    if entries.len() == 0 {
        Ok(map)
    } else {
        match merged_all(map, entries.drop_last(), owner) {
            Ok(m) => merged(m, entries.last(), owner),
            Err(e) => Err(e),
        }
    }
}

/// The entries for the outputs of one action.
pub open spec fn action_outputs(action: ActionView, producer: KeyView, index: int) -> Seq<
    DepOutputView,
> {
    action.outputs.map_values(
        |path: Seq<char>|
            DepOutputView {
                exec_path: path,
                producer_ct: producer,
                action_index: (index % 0x1_0000_0000) as u32,
            },
    )
}

/// The entries for the outputs of all actions of a target.
pub open spec fn own_outputs(actions: Seq<ActionView>, producer: KeyView) -> Seq<DepOutputView>
    decreases actions.len(),
{
    if actions.len() == 0 {
        Seq::empty()
    } else {
        own_outputs(actions.drop_last(), producer) + action_outputs(
            actions.last(),
            producer,
            actions.len() - 1,
        )
    }
}

/// What a dependency adds to the map of its dependent: the outputs of its own actions, then the
/// entries that it has from its own dependencies, with their producers as they are.
pub open spec fn contribution(producer: KeyView, t: TargetView) -> Seq<DepOutputView> {
    own_outputs(t.actions, producer) + t.dep_outputs
}

/// Adds one entry to the map of `owner`.
pub fn merge_dep_output(
    dep_outputs: &mut Vec<DepOutput>,
    entry: DepOutput,
    owner: &ConfiguredTargetKey,
) -> (r: Result<(), Error>)
    ensures
        match r {
            Ok(()) => merged(seqs::views(old(dep_outputs)@), entry@, owner@) == Ok::<
                Seq<DepOutputView>,
                ErrorView,
            >(seqs::views(final(dep_outputs)@)),
            Err(e) => {
                &&& merged(seqs::views(old(dep_outputs)@), entry@, owner@) == Err::<
                    Seq<DepOutputView>,
                    ErrorView,
                >(e@)
                &&& final(dep_outputs)@ == old(dep_outputs)@
            },
        },
{
    let ghost map = seqs::views(dep_outputs@);
    let ghost p = |d: DepOutputView| d.exec_path == entry@.exec_path;
    for i in 0..dep_outputs.len()
        invariant
            dep_outputs@ == old(dep_outputs)@,
            map == seqs::views(dep_outputs@),
            p == (|d: DepOutputView| d.exec_path == entry@.exec_path),
            forall|j: int| 0 <= j < i ==> !p(#[trigger] map[j]),
    {
        if same_text(&dep_outputs[i].exec_path, &entry.exec_path) {
            proof {
                assert(seqs::first_where(map, p, i as int));
                seqs::lemma_first_at(map, p, i as int);
            }
            if !dep_outputs[i].producer_ct.same(&entry.producer_ct) || dep_outputs[i].action_index
                != entry.action_index {
                return Err(
                    Error::Conflict {
                        what: "duplicate dep output".to_owned(),
                        detail: "//".to_owned().concat(&owner.package).concat(":").concat(
                            &owner.name,
                        ).concat(": dep output '").concat(&entry.exec_path).concat(
                            "' is produced by two distinct dependencies",
                        ),
                    },
                );
            }
            return Ok(());
        }
    }
    dep_outputs.push(entry);
    assert(seqs::views(dep_outputs@) =~= map.push(entry@));
    Ok(())
}

/// Entries in two parts are added part by part.
proof fn lemma_merged_in_parts(
    map: Seq<DepOutputView>,
    a: Seq<DepOutputView>,
    b: Seq<DepOutputView>,
    owner: KeyView,
)
    ensures
        merged_all(map, a + b, owner) == (match merged_all(map, a, owner) {
            Ok(m) => merged_all(m, b, owner),
            Err(e) => Err(e),
        }),
    decreases b.len(),
{
    if b.len() == 0 {
        assert(a + b =~= a);
    } else {
        lemma_merged_in_parts(map, a, b.drop_last(), owner);
        assert((a + b).drop_last() =~= a + b.drop_last());
        assert((a + b).last() == b.last());
    }
}

/// Whether the adding of entries stopped at a conflict, with the map as it was before it.
pub open spec fn stopped_at(
    map: Seq<DepOutputView>,
    entries: Seq<DepOutputView>,
    owner: KeyView,
    stop: Seq<DepOutputView>,
    n: int,
) -> bool {
    &&& 0 <= n < entries.len()
    &&& merged_all(map, entries.take(n), owner) == Ok::<Seq<DepOutputView>, ErrorView>(stop)
    &&& merged(stop, entries[n], owner) is Err
}

/// Adds to the map of `owner` what the dependency `producer` contributes. At a conflict the entries
/// before it stay.
pub fn merge_dependency(
    dep_outputs: &mut Vec<DepOutput>,
    producer: &ConfiguredTargetKey,
    ct: &ConfiguredTarget,
    owner: &ConfiguredTargetKey,
) -> (r: Result<(), Error>)
    ensures
        merged_all(seqs::views(old(dep_outputs)@), contribution(producer@, ct@), owner@) == (match r {
            Ok(()) => Ok::<Seq<DepOutputView>, ErrorView>(seqs::views(final(dep_outputs)@)),
            Err(e) => Err::<Seq<DepOutputView>, ErrorView>(e@),
        }),
        r is Err ==> exists|n: int|
            #[trigger] stopped_at(
                seqs::views(old(dep_outputs)@),
                contribution(producer@, ct@),
                owner@,
                seqs::views(final(dep_outputs)@),
                n,
            ),
{
    let ghost start = seqs::views(dep_outputs@);
    let ghost all = contribution(producer@, ct@);
    let ghost own = own_outputs(ct@.actions, producer@);
    assert(ct@.actions.take(0) =~= Seq::empty());
    for i in 0..ct.actions.len()
        invariant
            start == seqs::views(old(dep_outputs)@),
            own == own_outputs(ct@.actions, producer@),
            all == own + ct@.dep_outputs,
            merged_all(start, own_outputs(ct@.actions.take(i as int), producer@), owner@) == Ok::<
                Seq<DepOutputView>,
                ErrorView,
            >(seqs::views(dep_outputs@)),
    {
        let outputs = &ct.actions[i].outputs;
        let ghost before = own_outputs(ct@.actions.take(i as int), producer@);
        let ghost these = action_outputs(ct@.actions[i as int], producer@, i as int);
        assert(ct@.actions.take(i + 1).drop_last() =~= ct@.actions.take(i as int));
        assert(own_outputs(ct@.actions.take(i + 1), producer@) == before + these);
        assert(before + these.take(0) =~= before);
        for j in 0..outputs.len()
            invariant
                start == seqs::views(old(dep_outputs)@),
                own == own_outputs(ct@.actions, producer@),
                all == own + ct@.dep_outputs,
                0 <= i < ct.actions@.len(),
                outputs@ == ct.actions@[i as int].outputs@,
                before == own_outputs(ct@.actions.take(i as int), producer@),
                these == action_outputs(ct@.actions[i as int], producer@, i as int),
                own_outputs(ct@.actions.take(i + 1), producer@) == before + these,
                merged_all(start, before + these.take(j as int), owner@) == Ok::<
                    Seq<DepOutputView>,
                    ErrorView,
                >(seqs::views(dep_outputs@)),
        {
            let entry = DepOutput {
                exec_path: outputs[j].clone(),
                producer_ct: producer.clone(),
                action_index: (i as u64 % 0x1_0000_0000) as u32,
            };
            proof {
                assert(entry@ == these[j as int]);
                assert((before + these.take(j + 1)).drop_last() =~= before + these.take(j as int));
                assert((before + these.take(j + 1)).last() == entry@);
            }
            if let Err(e) = merge_dep_output(dep_outputs, entry, owner) {
                proof {
                    let done = before + these.take(j + 1);
                    lemma_own_outputs_prefix(ct@.actions, producer@, i + 1);
                    let rest = own.skip((before + these).len() as int);
                    assert(own =~= before + these + rest);
                    assert(all =~= done + (these.skip(j + 1) + rest + ct@.dep_outputs));
                    lemma_merged_in_parts(
                        start,
                        done,
                        these.skip(j + 1) + rest + ct@.dep_outputs,
                        owner@,
                    );
                    let n = (before + these.take(j as int)).len() as int;
                    assert(all.take(n) =~= before + these.take(j as int));
                    assert(all[n] == entry@);
                    assert(stopped_at(start, all, owner@, seqs::views(dep_outputs@), n));
                }
                return Err(e);
            }
        }
        assert(these.take(outputs@.len() as int) =~= these);
    }
    assert(ct@.actions.take(ct.actions@.len() as int) =~= ct@.actions);
    assert(own + ct@.dep_outputs.take(0) =~= own);
    for i in 0..ct.dep_outputs.len()
        invariant
            start == seqs::views(old(dep_outputs)@),
            own == own_outputs(ct@.actions, producer@),
            all == own + ct@.dep_outputs,
            merged_all(start, own + ct@.dep_outputs.take(i as int), owner@) == Ok::<
                Seq<DepOutputView>,
                ErrorView,
            >(seqs::views(dep_outputs@)),
    {
        let entry = ct.dep_outputs[i].clone();
        proof {
            let done = own + ct@.dep_outputs.take(i + 1);
            assert(done.drop_last() =~= own + ct@.dep_outputs.take(i as int));
            assert(done.last() == entry@);
            assert(all =~= done + ct@.dep_outputs.skip(i + 1));
            lemma_merged_in_parts(start, done, ct@.dep_outputs.skip(i + 1), owner@);
        }
        if let Err(e) = merge_dep_output(dep_outputs, entry, owner) {
            proof {
                let n = (own + ct@.dep_outputs.take(i as int)).len() as int;
                assert(all.take(n) =~= own + ct@.dep_outputs.take(i as int));
                assert(all[n] == entry@);
                assert(stopped_at(start, all, owner@, seqs::views(dep_outputs@), n));
            }
            return Err(e);
        }
    }
    assert(ct@.dep_outputs.take(ct.dep_outputs@.len() as int) =~= ct@.dep_outputs);
    Ok(())
}

/// The outputs of the first actions come first among the outputs of all.
proof fn lemma_own_outputs_prefix(actions: Seq<ActionView>, producer: KeyView, n: int)
    requires
        0 <= n <= actions.len(),
    ensures
        own_outputs(actions.take(n), producer).is_prefix_of(own_outputs(actions, producer)),
    decreases actions.len() - n,
{
    if n < actions.len() {
        lemma_own_outputs_prefix(actions, producer, n + 1);
        assert(actions.take(n + 1).drop_last() =~= actions.take(n));
        let a = own_outputs(actions.take(n), producer);
        let b = own_outputs(actions.take(n + 1), producer);
        let c = own_outputs(actions, producer);
        assert(a =~= b.subrange(0, a.len() as int));
        assert(a =~= c.subrange(0, a.len() as int));
    } else {
        assert(actions.take(n) =~= actions);
    }
}

// ---- Laws of the map ----

/// Whether no path stands in a map twice.
pub open spec fn paths_distinct(map: Seq<DepOutputView>) -> bool {
    forall|i: int, j: int|
        0 <= i < j < map.len() ==> (#[trigger] map[i]).exec_path != (#[trigger] map[j]).exec_path
}

/// A path names one producer: a map in which no path stands twice keeps that property.
pub proof fn law_one_producer_per_path(
    map: Seq<DepOutputView>,
    entries: Seq<DepOutputView>,
    owner: KeyView,
)
    requires
        paths_distinct(map),
        merged_all(map, entries, owner) is Ok,
    ensures
        paths_distinct(merged_all(map, entries, owner)->Ok_0),
    decreases entries.len(),
{
    if entries.len() > 0 {
        law_one_producer_per_path(map, entries.drop_last(), owner);
        let m = merged_all(map, entries.drop_last(), owner)->Ok_0;
        let entry = entries.last();
        let p = |d: DepOutputView| d.exec_path == entry.exec_path;
        let r = merged(m, entry, owner)->Ok_0;
        if seqs::first(m, p) is None {
            assert forall|i: int, j: int| 0 <= i < j < r.len() implies (#[trigger] r[i]).exec_path
                != (#[trigger] r[j]).exec_path by {
                if j == m.len() && p(m[i]) {
                    seqs::lemma_first_exists(m, p, i);
                }
            }
        }
    }
}

/// Whether an entry is the one that its path leads to.
pub open spec fn leads_to(map: Seq<DepOutputView>, entry: DepOutputView) -> bool {
    seqs::first(map, |d: DepOutputView| d.exec_path == entry.exec_path) == Some(entry)
}

/// One more entry leaves in place what paths lead to.
proof fn lemma_merged_keeps(
    map: Seq<DepOutputView>,
    entry: DepOutputView,
    owner: KeyView,
    x: DepOutputView,
)
    requires
        merged(map, entry, owner) is Ok,
        leads_to(map, x) || x == entry,
    ensures
        leads_to(merged(map, entry, owner)->Ok_0, x),
{
    let p = |d: DepOutputView| d.exec_path == x.exec_path;
    let q = |d: DepOutputView| d.exec_path == entry.exec_path;
    let r = merged(map, entry, owner)->Ok_0;
    if leads_to(map, x) {
        let i = choose|i: int| seqs::first_where(map, p, i);
        assert(seqs::first_where(map, p, i));
        assert(seqs::first_where(r, p, i)) by {
            assert forall|j: int| 0 <= j < i implies !p(#[trigger] r[j]) by {
                assert(r[j] == map[j]);
            }
        }
        seqs::lemma_first_at(map, p, i);
        seqs::lemma_first_at(r, p, i);
    } else if seqs::first(map, q) is None {
        let i = map.len() as int;
        assert(seqs::first_where(r, q, i)) by {
            assert forall|j: int| 0 <= j < i implies !q(#[trigger] r[j]) by {
                assert(r[j] == map[j]);
                if q(map[j]) {
                    seqs::lemma_first_exists(map, q, j);
                }
            }
        }
        seqs::lemma_first_at(r, q, i);
    }
}

/// Nothing is lost and nothing is replaced: what a path of the map led to before, it leads to after,
/// and the path of every entry added leads to that entry.
pub proof fn law_entries_are_kept(
    map: Seq<DepOutputView>,
    entries: Seq<DepOutputView>,
    owner: KeyView,
    x: DepOutputView,
)
    requires
        merged_all(map, entries, owner) is Ok,
        leads_to(map, x) || entries.contains(x),
    ensures
        leads_to(merged_all(map, entries, owner)->Ok_0, x),
    decreases entries.len(),
{
    if entries.len() > 0 {
        let m = merged_all(map, entries.drop_last(), owner)->Ok_0;
        if entries.contains(x) {
            let i = choose|i: int| 0 <= i < entries.len() && entries[i] == x;
            if i < entries.len() - 1 {
                assert(entries.drop_last()[i] == x);
            }
        }
        if leads_to(map, x) || entries.drop_last().contains(x) {
            law_entries_are_kept(map, entries.drop_last(), owner, x);
        }
        lemma_merged_keeps(m, entries.last(), owner, x);
    }
}

/// A producer that is reached on two ways is no conflict: entries that were added once are added
/// again without any change.
pub proof fn law_duplicates_are_benign(
    map: Seq<DepOutputView>,
    entries: Seq<DepOutputView>,
    again: Seq<DepOutputView>,
    owner: KeyView,
)
    requires
        merged_all(map, entries, owner) is Ok,
        forall|i: int| 0 <= i < again.len() ==> entries.contains(#[trigger] again[i]),
    ensures
        merged_all(merged_all(map, entries, owner)->Ok_0, again, owner) == merged_all(
            map,
            entries,
            owner,
        ),
    decreases again.len(),
{
    if again.len() > 0 {
        law_duplicates_are_benign(map, entries, again.drop_last(), owner);
        law_entries_are_kept(map, entries, owner, again.last());
    }
}

/// Two producers of one path are a conflict, whichever comes first: where a path leads to one
/// entry, another entry for that path is refused.
pub proof fn law_two_producers_conflict(
    map: Seq<DepOutputView>,
    x: DepOutputView,
    entry: DepOutputView,
    owner: KeyView,
)
    requires
        leads_to(map, x),
        x.exec_path == entry.exec_path,
        x != entry,
    ensures
        merged(map, entry, owner) == Err::<Seq<DepOutputView>, ErrorView>(
            conflict(entry.exec_path, owner),
        ),
{
}

/// Adding the merged form of some entries is the same as adding the entries themselves. A target
/// that forwards the merged entries of another is, to its dependents, as good as that other.
pub proof fn law_forwarding_is_transparent(
    map: Seq<DepOutputView>,
    entries: Seq<DepOutputView>,
    forwarder: KeyView,
    owner: KeyView,
)
    requires
        merged_all(Seq::empty(), entries, forwarder) is Ok,
    ensures
        merged_all(map, merged_all(Seq::empty(), entries, forwarder)->Ok_0, owner) == merged_all(
            map,
            entries,
            owner,
        ),
    decreases entries.len(),
{
    let empty = Seq::<DepOutputView>::empty();
    if entries.len() > 0 {
        law_forwarding_is_transparent(map, entries.drop_last(), forwarder, owner);
        let short = merged_all(empty, entries.drop_last(), forwarder)->Ok_0;
        let x = entries.last();
        let p = |d: DepOutputView| d.exec_path == x.exec_path;
        if seqs::first(short, p) is None {
            assert(short.push(x).drop_last() =~= short);
        } else {
            let i = choose|i: int| seqs::first_where(short, p, i);
            assert(seqs::first_where(short, p, i));
            seqs::lemma_first_at(short, p, i);
            assert(short.contains(x));
            if merged_all(map, short, owner) is Ok {
                law_entries_are_kept(map, short, owner, x);
            }
        }
    }
}

/// Nothing is made up: what stands in a map with further entries stood in the map or is one of the
/// entries.
pub proof fn law_only_entries_are_added(
    map: Seq<DepOutputView>,
    entries: Seq<DepOutputView>,
    owner: KeyView,
    x: DepOutputView,
)
    requires
        merged_all(map, entries, owner) is Ok,
        merged_all(map, entries, owner)->Ok_0.contains(x),
    ensures
        map.contains(x) || entries.contains(x),
    decreases entries.len(),
{
    if entries.len() > 0 {
        let before = merged_all(map, entries.drop_last(), owner)->Ok_0;
        seqs::lemma_push_contains(before, entries.last(), x);
        seqs::lemma_push_contains(entries.drop_last(), entries.last(), x);
        assert(entries =~= entries.drop_last().push(entries.last()));
        if before.contains(x) {
            law_only_entries_are_added(map, entries.drop_last(), owner, x);
        }
    }
}

/// Entries are refused for a conflict only.
pub proof fn law_merges_fail_by_conflict(
    map: Seq<DepOutputView>,
    entries: Seq<DepOutputView>,
    owner: KeyView,
)
    requires
        merged_all(map, entries, owner) is Err,
    ensures
        merged_all(map, entries, owner)->Err_0 is Conflict,
    decreases entries.len(),
{
    if entries.len() > 0 && merged_all(map, entries.drop_last(), owner) is Err {
        law_merges_fail_by_conflict(map, entries.drop_last(), owner);
    }
}

// ---- Laws of contributions ----

/// The outputs of an action are put down to it: each path, in order, with the target that declares
/// the action and the position at which it stands there, counted modulo 2^32.
pub proof fn law_outputs_are_put_down_to_their_action(
    actions: Seq<ActionView>,
    a: ActionView,
    producer: KeyView,
)
    ensures
        own_outputs(Seq::empty(), producer).len() == 0,
        own_outputs(actions.push(a), producer) == own_outputs(actions, producer) + Seq::new(
            a.outputs.len(),
            |j: int|
                DepOutputView {
                    exec_path: a.outputs[j],
                    producer_ct: producer,
                    action_index: (actions.len() % 0x1_0000_0000) as u32,
                },
        ),
{
    assert(actions.push(a).drop_last() =~= actions);
    assert(action_outputs(a, producer, actions.len() as int) =~= Seq::new(
        a.outputs.len(),
        |j: int|
            DepOutputView {
                exec_path: a.outputs[j],
                producer_ct: producer,
                action_index: (actions.len() % 0x1_0000_0000) as u32,
            },
    ));
}

/// What a dependency contributes names the producing action: every path that one of its actions
/// lists stands there with the dependency and the position of that action, and so do the entries
/// that it has from its own dependencies, as they are.
pub proof fn law_contributions_name_the_producing_action(
    producer: KeyView,
    t: TargetView,
    i: int,
    p: int,
)
    requires
        0 <= i < t.actions.len(),
        i < 0x1_0000_0000,
        0 <= p < t.actions[i].outputs.len(),
    ensures
        contribution(producer, t).contains(
            DepOutputView {
                exec_path: t.actions[i].outputs[p],
                producer_ct: producer,
                action_index: i as u32,
            },
        ),
{
    let x = DepOutputView {
        exec_path: t.actions[i].outputs[p],
        producer_ct: producer,
        action_index: i as u32,
    };
    lemma_own_outputs_hold(t.actions, producer, i, p);
    let own = own_outputs(t.actions, producer);
    let k = choose|k: int| 0 <= k < own.len() && own[k] == x;
    assert(contribution(producer, t)[k] == x);
}

/// The outputs of all actions hold those of each.
proof fn lemma_own_outputs_hold(actions: Seq<ActionView>, producer: KeyView, i: int, p: int)
    requires
        0 <= i < actions.len(),
        i < 0x1_0000_0000,
        0 <= p < actions[i].outputs.len(),
    ensures
        own_outputs(actions, producer).contains(
            DepOutputView {
                exec_path: actions[i].outputs[p],
                producer_ct: producer,
                action_index: i as u32,
            },
        ),
    decreases actions.len(),
{
    let x = DepOutputView {
        exec_path: actions[i].outputs[p],
        producer_ct: producer,
        action_index: i as u32,
    };
    let before = own_outputs(actions.drop_last(), producer);
    if i < actions.len() - 1 {
        lemma_own_outputs_hold(actions.drop_last(), producer, i, p);
        let k = choose|k: int| 0 <= k < before.len() && before[k] == x;
        assert(own_outputs(actions, producer)[k] == x);
    } else {
        assert(action_outputs(actions.last(), producer, i)[p] == x);
        assert(own_outputs(actions, producer)[before.len() + p] == x);
    }
}

/// A dependency contributes nothing else: an entry comes from its own dependencies, or it names the
/// dependency and one of its actions that lists the path.
pub proof fn law_contributions_are_outputs(producer: KeyView, t: TargetView, x: DepOutputView)
    requires
        contribution(producer, t).contains(x),
        t.actions.len() <= 0x1_0000_0000,
    ensures
        t.dep_outputs.contains(x) || (x.producer_ct == producer && x.action_index < t.actions.len()
            && t.actions[x.action_index as int].outputs.contains(x.exec_path)),
{
    let own = own_outputs(t.actions, producer);
    let k = choose|k: int| 0 <= k < contribution(producer, t).len() && contribution(producer, t)[k]
        == x;
    if k < own.len() {
        assert(own[k] == x);
        lemma_own_outputs_are_listed(t.actions, producer, x);
    } else {
        assert(t.dep_outputs[k - own.len()] == x);
    }
}

/// The outputs of actions are listed by the actions that they name.
proof fn lemma_own_outputs_are_listed(actions: Seq<ActionView>, producer: KeyView, x: DepOutputView)
    requires
        own_outputs(actions, producer).contains(x),
        actions.len() <= 0x1_0000_0000,
    ensures
        x.producer_ct == producer,
        x.action_index < actions.len(),
        actions[x.action_index as int].outputs.contains(x.exec_path),
    decreases actions.len(),
{
    if actions.len() > 0 {
        let n = actions.len() - 1;
        let before = own_outputs(actions.drop_last(), producer);
        let own = own_outputs(actions, producer);
        let k = choose|k: int| 0 <= k < own.len() && own[k] == x;
        if k < before.len() {
            assert(before[k] == x);
            lemma_own_outputs_are_listed(actions.drop_last(), producer, x);
        } else {
            assert(action_outputs(actions.last(), producer, n)[k - before.len()] == x);
            assert(actions[n].outputs[k - before.len()] == x.exec_path);
        }
    }
}

/// The entries of the own actions come first, those of the dependencies behind them.
pub proof fn law_own_outputs_come_first(producer: KeyView, t: TargetView)
    ensures
        contribution(producer, t) == own_outputs(t.actions, producer) + t.dep_outputs,
        t.actions.len() == 0 ==> contribution(producer, t) == t.dep_outputs,
{
    if t.actions.len() == 0 {
        assert(contribution(producer, t) =~= t.dep_outputs);
    }
}

/// A new path is put behind the others; a path that is there with the same producer changes nothing;
/// a path that is there with another is a conflict that names the path and the owner.
pub proof fn law_a_path_is_added_once(
    map: Seq<DepOutputView>,
    entry: DepOutputView,
    owner: KeyView,
    i: int,
)
    ensures
        (forall|j: int| 0 <= j < map.len() ==> (#[trigger] map[j]).exec_path != entry.exec_path)
            ==> merged(map, entry, owner) == Ok::<Seq<DepOutputView>, ErrorView>(map.push(entry)),
        0 <= i < map.len() && map[i].exec_path == entry.exec_path && (forall|j: int|
            0 <= j < i ==> (#[trigger] map[j]).exec_path != entry.exec_path) ==> merged(
            map,
            entry,
            owner,
        ) == (if map[i].producer_ct == entry.producer_ct && map[i].action_index
            == entry.action_index {
            Ok::<Seq<DepOutputView>, ErrorView>(map)
        } else {
            Err(
                ErrorView::Conflict {
                    what: "duplicate dep output"@,
                    detail: "//"@ + owner.package + ":"@ + owner.name + ": dep output '"@
                        + entry.exec_path + "' is produced by two distinct dependencies"@,
                },
            )
        }),
{
    let p = |d: DepOutputView| d.exec_path == entry.exec_path;
    if forall|j: int| 0 <= j < map.len() ==> (#[trigger] map[j]).exec_path != entry.exec_path {
        if seqs::first(map, p) is Some {
            let k = choose|k: int| seqs::first_where(map, p, k);
            assert(seqs::first_where(map, p, k));
            assert(map[k].exec_path == entry.exec_path);
        }
    }
    if 0 <= i < map.len() && map[i].exec_path == entry.exec_path && forall|j: int|
        0 <= j < i ==> (#[trigger] map[j]).exec_path != entry.exec_path {
        assert(seqs::first_where(map, p, i));
        seqs::lemma_first_at(map, p, i);
    }
}

/// Entries are added one after the other, and the first conflict ends it.
pub proof fn law_entries_are_added_in_turn(
    map: Seq<DepOutputView>,
    a: Seq<DepOutputView>,
    b: Seq<DepOutputView>,
    x: DepOutputView,
    owner: KeyView,
)
    ensures
        merged_all(map, Seq::empty(), owner) == Ok::<Seq<DepOutputView>, ErrorView>(map),
        merged_all(map, seq![x], owner) == merged(map, x, owner),
        merged_all(map, a + b, owner) == (match merged_all(map, a, owner) {
            Ok(m) => merged_all(m, b, owner),
            Err(e) => Err::<Seq<DepOutputView>, ErrorView>(e),
        }),
{
    lemma_merged_in_parts(map, a, b, owner);
    assert(seq![x].drop_last() =~= Seq::empty());
    assert(merged_all(map, seq![x].drop_last(), owner) == Ok::<Seq<DepOutputView>, ErrorView>(map));
}

/// The instance of a provider is the first of its identity.
pub proof fn law_first_instance_counts(providers: Seq<ProviderView>, id: ProviderIdView, i: int)
    ensures
        0 <= i < providers.len() && providers[i].provider == id && (forall|j: int|
            0 <= j < i ==> (#[trigger] providers[j]).provider != id) ==> published(providers, id)
            == Some(providers[i]),
        published(providers, id) matches Some(p) ==> p.provider == id && providers.contains(p),
        published(providers, id) is None ==> forall|j: int|
            0 <= j < providers.len() ==> (#[trigger] providers[j]).provider != id,
{
    let p = |q: ProviderView| q.provider == id;
    if 0 <= i < providers.len() && providers[i].provider == id && forall|j: int|
        0 <= j < i ==> (#[trigger] providers[j]).provider != id {
        assert(seqs::first_where(providers, p, i));
        seqs::lemma_first_at(providers, p, i);
    }
    if published(providers, id) is Some {
        let k = choose|k: int| seqs::first_where(providers, p, k);
        assert(seqs::first_where(providers, p, k));
        seqs::lemma_first_at(providers, p, k);
    } else {
        assert forall|j: int| 0 <= j < providers.len() implies (#[trigger] providers[j]).provider
            != id by {
            if p(providers[j]) {
                seqs::lemma_first_exists(providers, p, j);
            }
        }
    }
}

/// The model of a configured target tells all of it, and so does that of an output.
pub proof fn law_models_tell_the_whole_target(t: ConfiguredTarget, d: DepOutput)
    ensures
        t@.providers == seqs::views(t.providers@),
        t@.actions == seqs::views(t.actions@),
        t@.dep_outputs == seqs::views(t.dep_outputs@),
        t@.visibility == text::texts(t.visibility@),
        d@.exec_path == d.exec_path@,
        d@.producer_ct == d.producer_ct@,
        d@.action_index == d.action_index,
{
}

/// A target has the provider of an identity where it publishes one, and it is one of those that it
/// publishes.
pub proof fn law_published_providers_are_found(
    t: ConfiguredTarget,
    id: ProviderId,
    r: Option<&ProviderInstance>,
)
    requires
        call_ensures(ConfiguredTarget::provider, (&t, &id), r),
    ensures
        r matches Some(p) ==> p@.provider == id@ && t@.providers.contains(p@),
        r is None ==> forall|i: int|
            0 <= i < t@.providers.len() ==> (#[trigger] t@.providers[i]).provider != id@,
{
    law_first_instance_counts(t@.providers, id@, 0);
}

} // verus!
