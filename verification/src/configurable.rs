//! The selectable attributes of a target: the conditions that they name, and the attributes that are
//! left once the conditions are decided.

use vstd::prelude::*;
use crate::branch::{self, resolve_select_attr, Verdicts};
use crate::decl::{DeclView, TargetDecl};
use crate::error::{invalid, Error, ErrorView};
use crate::key::{ConfiguredTargetKey, KeyView, NodeKey, NodeKeyView};
use crate::label::{self, render_label};
use crate::node::{self, missing_keys, Demand, DemandView, NodeValue, NodeValueView};
use crate::select::{self, read_config_match, CONDITIONS_DEFAULT};
use crate::seqs;
use crate::string_map::StringMap;
use crate::target::TargetView;
use crate::text::{self, contains_text, same_text};
use crate::value::{self, ArmView, BzlValue, SelectArm, ValueView};

verus! {

// ---- The conditions ----

/// Whether some attribute is selectable.
pub open spec fn selectable(attrs: Seq<(Seq<char>, ValueView)>) -> bool {
    exists|i: int| 0 <= i < attrs.len() && (#[trigger] attrs[i]).1 is Select
}

/// The labels of the conditions of some arms, in order.
pub open spec fn arms_labels(arms: Seq<ArmView>) -> Seq<Seq<char>>
    decreases arms.len(),
{
    if arms.len() == 0 {
        Seq::empty()
    } else {
        arms_labels(arms.drop_last()) + (match arms.last() {
            ArmView::Branch { conditions, .. } => branch::labels(conditions),
            ArmView::Concrete(_) => Seq::empty(),
        })
    }
}

/// The labels of the conditions of some attributes, in order.
pub open spec fn attrs_labels(attrs: Seq<(Seq<char>, ValueView)>) -> Seq<Seq<char>>
    decreases attrs.len(),
{
    if attrs.len() == 0 {
        Seq::empty()
    } else {
        attrs_labels(attrs.drop_last()) + (match attrs.last().1 {
            ValueView::Select(arms) => arms_labels(arms),
            _ => Seq::empty(),
        })
    }
}

/// Some labels with further ones, each once. The default is left out.
pub open spec fn gathered(start: Seq<Seq<char>>, labels: Seq<Seq<char>>) -> Seq<Seq<char>>
    decreases labels.len(),
{
    if labels.len() == 0 {
        start
    } else {
        let before = gathered(start, labels.drop_last());
        if branch::names_target(labels.last()) && !before.contains(labels.last()) {
            before.push(labels.last())
        } else {
            before
        }
    }
}

/// The targets that the conditions of some attributes name, each once.
pub open spec fn conditions_of(attrs: Seq<(Seq<char>, ValueView)>) -> Seq<Seq<char>> {
    gathered(Seq::empty(), attrs_labels(attrs))
}

/// Labels in two parts are gathered part by part.
proof fn lemma_gathered_in_parts(start: Seq<Seq<char>>, a: Seq<Seq<char>>, b: Seq<Seq<char>>)
    ensures
        gathered(start, a + b) == gathered(gathered(start, a), b),
    decreases b.len(),
{
    if b.len() == 0 {
        assert(a + b =~= a);
    } else {
        lemma_gathered_in_parts(start, a, b.drop_last());
        assert((a + b).drop_last() =~= a + b.drop_last());
        assert((a + b).last() == b.last());
    }
}

/// Whether some attribute is selectable.
pub fn has_select(attrs: &Vec<(String, BzlValue)>) -> (r: bool)
    ensures
        r == selectable(value::named_view(attrs@)),
{
    let ghost all = value::named_view(attrs@);
    for i in 0..attrs.len()
        invariant
            all == value::named_view(attrs@),
            forall|j: int| 0 <= j < i ==> !((#[trigger] all[j]).1 is Select),
    {
        if let BzlValue::Select(_) = &attrs[i].1 {
            assert(all[i as int].1 is Select);
            return true;
        }
        assert(!(all[i as int].1 is Select));
    }
    false
}

/// Adds the labels of the conditions of a branch.
fn gather_conditions(out: &mut Vec<String>, conditions: &Vec<(String, BzlValue)>)
    ensures
        text::texts(final(out)@) == gathered(
            text::texts(old(out)@),
            branch::labels(value::named_view(conditions@)),
        ),
{
    let ghost start = text::texts(out@);
    let ghost all = branch::labels(value::named_view(conditions@));
    for i in 0..conditions.len()
        invariant
            all == branch::labels(value::named_view(conditions@)),
            text::texts(out@) == gathered(start, all.take(i as int)),
    {
        assert(all.take(i + 1).drop_last() =~= all.take(i as int));
        let label = &conditions[i].0;
        if !same_text(label, CONDITIONS_DEFAULT) && !contains_text(out, label) {
            let ghost before = text::texts(out@);
            out.push(label.clone());
            assert(text::texts(out@) =~= before.push(all[i as int]));
        }
    }
    assert(all.take(conditions@.len() as int) =~= all);
}

/// Adds the labels of the conditions of some arms.
fn gather_arms(out: &mut Vec<String>, arms: &Vec<SelectArm>)
    ensures
        text::texts(final(out)@) == gathered(
            text::texts(old(out)@),
            arms_labels(value::arms_view(arms@)),
        ),
{
    let ghost start = text::texts(out@);
    let ghost all = value::arms_view(arms@);
    for i in 0..arms.len()
        invariant
            all == value::arms_view(arms@),
            text::texts(out@) == gathered(start, arms_labels(all.take(i as int))),
    {
        proof {
            value::lemma_arm_view(arms@[i as int]);
            assert(all.take(i + 1).drop_last() =~= all.take(i as int));
        }
        match &arms[i] {
            SelectArm::Branch { conditions, .. } => {
                proof {
                    lemma_gathered_in_parts(
                        start,
                        arms_labels(all.take(i as int)),
                        branch::labels(value::named_view(conditions@)),
                    );
                }
                gather_conditions(out, conditions);
            },
            SelectArm::Concrete(_) => {
                assert(arms_labels(all.take(i + 1)) =~= arms_labels(all.take(i as int)));
            },
        }
    }
    assert(all.take(arms@.len() as int) =~= all);
}

/// The targets that the conditions of some attributes name, each once.
pub fn condition_labels(attrs: &Vec<(String, BzlValue)>) -> (r: Vec<String>)
    ensures
        text::texts(r@) == conditions_of(value::named_view(attrs@)),
{
    let ghost none = Seq::<Seq<char>>::empty();
    let ghost all = value::named_view(attrs@);
    let mut r: Vec<String> = Vec::new();
    assert(text::texts(r@) =~= none);
    for i in 0..attrs.len()
        invariant
            none == Seq::<Seq<char>>::empty(),
            all == value::named_view(attrs@),
            text::texts(r@) == gathered(none, attrs_labels(all.take(i as int))),
    {
        proof {
            value::lemma_value_view(attrs@[i as int].1);
            assert(all.take(i + 1).drop_last() =~= all.take(i as int));
        }
        match &attrs[i].1 {
            BzlValue::Select(arms) => {
                proof {
                    lemma_gathered_in_parts(
                        none,
                        attrs_labels(all.take(i as int)),
                        arms_labels(value::arms_view(arms@)),
                    );
                }
                gather_arms(&mut r, arms);
            },
            _ => {
                assert(attrs_labels(all.take(i + 1)) =~= attrs_labels(all.take(i as int)));
            },
        }
    }
    assert(all.take(attrs@.len() as int) =~= all);
    r
}

// ---- The decided conditions ----

/// The failure of a condition that names a target which is no `config_setting`.
pub open spec fn not_a_config_setting(key: KeyView, lbl: Seq<char>) -> ErrorView {
    ErrorView::Invalid {
        what: "select condition"@,
        detail: "condition '"@ + lbl + "' of a select on //"@ + key.package + ":"@ + key.name
            + " is not a config_setting (no ConfigMatchInfo)"@,
    }
}

/// The failure of a condition whose node holds something else than a configured target.
pub open spec fn not_a_target() -> ErrorView {
    ErrorView::Invalid {
        what: "select condition"@,
        detail: "a select condition CT was not a ConfiguredTarget"@,
    }
}

/// The matches of conditions, as far as their nodes are built. The first that has none decides the
/// failure.
pub open spec fn decided(
    key: KeyView,
    labels: Seq<Seq<char>>,
    demands: Seq<DemandView>,
) -> Result<Verdicts, ErrorView>
    decreases demands.len(),
{
    if demands.len() == 0 {
        Ok(Map::empty())
    } else {
        let lbl = labels[demands.len() - 1];
        match decided(key, labels, demands.drop_last()) {
            Err(e) => Err(e),
            Ok(vs) => match demands.last() {
                DemandView::Missing => Ok(vs),
                DemandView::Ready(NodeValueView::Target(t)) => match select::match_of(t) {
                    Some(v) => Ok(vs.insert(lbl, v)),
                    None => Err(not_a_config_setting(key, lbl)),
                },
                DemandView::Ready(_) => Err(not_a_target()),
            },
        }
    }
}

/// A failure among the first conditions is the failure of all.
proof fn lemma_decided_prefix(
    key: KeyView,
    labels: Seq<Seq<char>>,
    demands: Seq<DemandView>,
    n: int,
)
    requires
        0 <= n <= demands.len(),
        decided(key, labels, demands.take(n)) is Err,
    ensures
        decided(key, labels, demands) == decided(key, labels, demands.take(n)),
    decreases demands.len() - n,
{
    if n < demands.len() {
        assert(demands.take(n + 1).drop_last() =~= demands.take(n));
        lemma_decided_prefix(key, labels, demands, n + 1);
    } else {
        assert(demands.take(n) =~= demands);
    }
}

/// The matches of conditions, as far as their nodes are built.
fn read_conditions(
    ctk: &ConfiguredTargetKey,
    labels: &Vec<String>,
    demands: &Vec<Demand>,
) -> (r: Result<StringMap<(bool, Vec<String>)>, Error>)
    requires
        demands@.len() <= labels@.len(),
    ensures
        decided(ctk@, text::texts(labels@), seqs::views(demands@)) == (match r {
            Ok(m) => Ok::<Verdicts, ErrorView>(branch::verdicts(m@)),
            Err(e) => Err::<Verdicts, ErrorView>(e@),
        }),
{
    let ghost ls = text::texts(labels@);
    let ghost ds = seqs::views(demands@);
    let mut matches: StringMap<(bool, Vec<String>)> = StringMap::new();
    assert(branch::verdicts(matches@) =~= Map::empty());
    for i in 0..demands.len()
        invariant
            demands@.len() <= labels@.len(),
            ls == text::texts(labels@),
            ds == seqs::views(demands@),
            decided(ctk@, ls, ds.take(i as int)) == Ok::<Verdicts, ErrorView>(
                branch::verdicts(matches@),
            ),
    {
        assert(ds.take(i + 1).drop_last() =~= ds.take(i as int));
        match &demands[i] {
            Demand::Missing => {},
            Demand::Ready(NodeValue::Target(t)) => match read_config_match(t) {
                Some(m) => {
                    let ghost before = matches@;
                    let ghost v = m;
                    matches.insert(labels[i].clone(), m);
                    assert(branch::verdicts(matches@) =~= branch::verdicts(before).insert(
                        ls[i as int],
                        select::verdict(v),
                    ));
                },
                None => {
                    proof {
                        lemma_decided_prefix(ctk@, ls, ds, i + 1);
                    }
                    return Err(
                        invalid(
                            "select condition",
                            "condition '".to_owned().concat(&labels[i]).concat(
                                "' of a select on //",
                            ).concat(&ctk.package).concat(":").concat(&ctk.name).concat(
                                " is not a config_setting (no ConfigMatchInfo)",
                            ),
                        ),
                    );
                },
            },
            Demand::Ready(_) => {
                proof {
                    lemma_decided_prefix(ctk@, ls, ds, i + 1);
                }
                return Err(
                    invalid(
                        "select condition",
                        "a select condition CT was not a ConfiguredTarget".to_owned(),
                    ),
                );
            },
        }
    }
    assert(ds.take(demands@.len() as int) =~= ds);
    Ok(matches)
}

// ---- The attributes that are left ----

/// The value of an attribute once the conditions are decided. One that is not selectable stays.
pub open spec fn settled(v: ValueView, vs: Verdicts, target_label: Seq<char>) -> Result<
    ValueView,
    ErrorView,
> {
    match v {
        ValueView::Select(arms) => branch::attr_value(arms, vs, target_label),
        _ => Ok(v),
    }
}

/// The attributes once the conditions are decided. The first that has no value decides the failure.
pub open spec fn all_settled(
    attrs: Seq<(Seq<char>, ValueView)>,
    vs: Verdicts,
    target_label: Seq<char>,
) -> Result<Seq<(Seq<char>, ValueView)>, ErrorView>
    decreases attrs.len(),
{
    if attrs.len() == 0 {
        Ok(Seq::empty())
    } else {
        match all_settled(attrs.drop_last(), vs, target_label) {
            Err(e) => Err(e),
            Ok(before) => match settled(attrs.last().1, vs, target_label) {
                Err(e) => Err(e),
                Ok(v) => Ok(before.push((attrs.last().0, v))),
            },
        }
    }
}

/// A failure among the first attributes is the failure of all.
proof fn lemma_settled_prefix(
    attrs: Seq<(Seq<char>, ValueView)>,
    vs: Verdicts,
    target_label: Seq<char>,
    n: int,
)
    requires
        0 <= n <= attrs.len(),
        all_settled(attrs.take(n), vs, target_label) is Err,
    ensures
        all_settled(attrs, vs, target_label) == all_settled(attrs.take(n), vs, target_label),
    decreases attrs.len() - n,
{
    if n < attrs.len() {
        assert(attrs.take(n + 1).drop_last() =~= attrs.take(n));
        lemma_settled_prefix(attrs, vs, target_label, n + 1);
    } else {
        assert(attrs.take(n) =~= attrs);
    }
}

/// The attributes once the conditions are decided.
fn settle_attrs(
    attrs: &Vec<(String, BzlValue)>,
    matches: &StringMap<(bool, Vec<String>)>,
    target_label: &str,
) -> (r: Result<Vec<(String, BzlValue)>, Error>)
    ensures
        all_settled(value::named_view(attrs@), branch::verdicts(matches@), target_label@) == (
        match r {
            Ok(out) => Ok::<Seq<(Seq<char>, ValueView)>, ErrorView>(value::named_view(out@)),
            Err(e) => Err::<Seq<(Seq<char>, ValueView)>, ErrorView>(e@),
        }),
{
    let ghost all = value::named_view(attrs@);
    let ghost vs = branch::verdicts(matches@);
    let mut out: Vec<(String, BzlValue)> = Vec::new();
    assert(value::named_view(out@) =~= Seq::empty());
    for i in 0..attrs.len()
        invariant
            all == value::named_view(attrs@),
            vs == branch::verdicts(matches@),
            all_settled(all.take(i as int), vs, target_label@) == Ok::<
                Seq<(Seq<char>, ValueView)>,
                ErrorView,
            >(value::named_view(out@)),
    {
        proof {
            value::lemma_value_view(attrs@[i as int].1);
            assert(all.take(i + 1).drop_last() =~= all.take(i as int));
        }
        let ghost before = value::named_view(out@);
        let v = match &attrs[i].1 {
            BzlValue::Select(arms) => match resolve_select_attr(
                arms.as_slice(),
                matches,
                target_label,
            ) {
                Ok(v) => v,
                Err(e) => {
                    proof {
                        lemma_settled_prefix(all, vs, target_label@, i + 1);
                    }
                    return Err(e);
                },
            },
            other => other.clone(),
        };
        out.push((attrs[i].0.clone(), v));
        assert(value::named_view(out@) =~= before.push((all[i as int].0, v@)));
    }
    assert(all.take(attrs@.len() as int) =~= all);
    Ok(out)
}

// ---- The resolution ----

/// The outcome of the resolution of the selectable attributes of a target.
pub enum SelectResolution {
    /// Every attribute has a plain value now.
    Ready(TargetDecl),
    /// The nodes of some conditions are not built yet.
    Missing(Vec<NodeKey>),
    /// A condition or an attribute cannot be decided.
    Error(Error),
}

/// The model of a [`SelectResolution`].
pub enum ResolutionView {
    Ready(DeclView),
    Missing(Seq<NodeKeyView>),
    Error(ErrorView),
}

impl View for SelectResolution {
    type V = ResolutionView;

    open spec fn view(&self) -> ResolutionView {
        match self {
            SelectResolution::Ready(t) => ResolutionView::Ready(t@),
            SelectResolution::Missing(keys) => ResolutionView::Missing(seqs::views(keys@)),
            SelectResolution::Error(e) => ResolutionView::Error(e@),
        }
    }
}

/// What becomes of a target with the given answers for its conditions. A condition that is answered
/// and cannot be decided fails at once; otherwise the conditions that are not answered are waited
/// for.
pub open spec fn resolved(
    key: KeyView,
    target: DeclView,
    labels: Seq<Seq<char>>,
    keys: Seq<NodeKeyView>,
    demands: Seq<DemandView>,
) -> ResolutionView {
    match decided(key, labels, demands) {
        Err(e) => ResolutionView::Error(e),
        Ok(vs) => {
            let missing = node::missing_among(keys, demands);
            if missing.len() > 0 {
                ResolutionView::Missing(missing)
            } else {
                match all_settled(target.attrs, vs, label::rendered(key.package, key.name)) {
                    Err(e) => ResolutionView::Error(e),
                    Ok(attrs) => ResolutionView::Ready(
                        DeclView {
                            kind: target.kind,
                            name: target.name,
                            attrs,
                            origin: target.origin,
                        },
                    ),
                }
            }
        },
    }
}

/// Resolves the selectable attributes of a target by the answers for its conditions.
pub fn resolve_target_selects(
    ctk: &ConfiguredTargetKey,
    target: TargetDecl,
    labels: &Vec<String>,
    keys: &Vec<NodeKey>,
    demands: &Vec<Demand>,
) -> (r: SelectResolution)
    requires
        keys@.len() == labels@.len(),
        demands@.len() <= keys@.len(),
    ensures
        r@ == resolved(
            ctk@,
            target@,
            text::texts(labels@),
            seqs::views(keys@),
            seqs::views(demands@),
        ),
{
    let matches = match read_conditions(ctk, labels, demands) {
        Ok(m) => m,
        Err(e) => {
            return SelectResolution::Error(e);
        },
    };
    let missing = missing_keys(keys, demands);
    if missing.len() > 0 {
        return SelectResolution::Missing(missing);
    }
    let target_label = render_label(&ctk.package, &ctk.name);
    match settle_attrs(&target.attrs, &matches, &target_label) {
        Ok(attrs) => SelectResolution::Ready(
            TargetDecl { kind: target.kind, name: target.name, attrs, origin: target.origin },
        ),
        Err(e) => SelectResolution::Error(e),
    }
}

// ---- Laws of the resolution ----

/// The conditions are the targets that the attributes name, and no other; each is asked for once.
pub proof fn law_conditions_are_named_once(start: Seq<Seq<char>>, labels: Seq<Seq<char>>)
    requires
        start.no_duplicates(),
        forall|i: int| 0 <= i < start.len() ==> branch::names_target(#[trigger] start[i]),
    ensures
        gathered(start, labels).no_duplicates(),
        forall|l: Seq<char>| #[trigger]
            gathered(start, labels).contains(l) <==> start.contains(l) || (labels.contains(l)
                && branch::names_target(l)),
    decreases labels.len(),
{
    if labels.len() > 0 {
        let last = labels.last();
        let before = gathered(start, labels.drop_last());
        law_conditions_are_named_once(start, labels.drop_last());
        assert(labels =~= labels.drop_last().push(last));
        assert forall|l: Seq<char>| #[trigger]
            gathered(start, labels).contains(l) <==> start.contains(l) || (labels.contains(l)
                && branch::names_target(l)) by {
            seqs::lemma_push_contains(labels.drop_last(), last, l);
            seqs::lemma_push_contains(before, last, l);
            assert(before.contains(l) <==> start.contains(l) || (labels.drop_last().contains(l)
                && branch::names_target(l)));
        }
    }
}

/// The resolution keeps the attributes, their names and their order; only selectable values change.
pub proof fn law_attributes_are_kept(
    attrs: Seq<(Seq<char>, ValueView)>,
    vs: Verdicts,
    target_label: Seq<char>,
)
    requires
        all_settled(attrs, vs, target_label) is Ok,
    ensures
        ({
            let out = all_settled(attrs, vs, target_label)->Ok_0;
            &&& out.len() == attrs.len()
            &&& forall|i: int|
                0 <= i < attrs.len() ==> (#[trigger] out[i]).0 == attrs[i].0 && settled(
                    attrs[i].1,
                    vs,
                    target_label,
                ) == Ok::<ValueView, ErrorView>(out[i].1)
        }),
    decreases attrs.len(),
{
    if attrs.len() > 0 {
        law_attributes_are_kept(attrs.drop_last(), vs, target_label);
        let before = all_settled(attrs.drop_last(), vs, target_label)->Ok_0;
        let out = all_settled(attrs, vs, target_label)->Ok_0;
        assert forall|i: int| 0 <= i < attrs.len() implies (#[trigger] out[i]).0 == attrs[i].0
            && settled(attrs[i].1, vs, target_label) == Ok::<ValueView, ErrorView>(out[i].1) by {
            if i < before.len() {
                assert(out[i] == before[i]);
                assert(attrs.drop_last()[i] == attrs[i]);
            }
        }
    }
}

/// A target without selectable attributes names no condition and comes out as it is.
pub proof fn law_plain_targets_are_unchanged(
    key: KeyView,
    target: DeclView,
    vs: Verdicts,
    target_label: Seq<char>,
)
    requires
        !selectable(target.attrs),
    ensures
        conditions_of(target.attrs).len() == 0,
        all_settled(target.attrs, vs, target_label) == Ok::<
            Seq<(Seq<char>, ValueView)>,
            ErrorView,
        >(target.attrs),
        resolved(key, target, Seq::empty(), Seq::empty(), Seq::empty()) == ResolutionView::Ready(
            target,
        ),
{
    lemma_plain_attrs(target.attrs, vs, target_label);
    lemma_plain_attrs(target.attrs, Map::empty(), label::rendered(key.package, key.name));
}

/// Attributes of which none is selectable name no condition and stay as they are.
proof fn lemma_plain_attrs(
    attrs: Seq<(Seq<char>, ValueView)>,
    vs: Verdicts,
    target_label: Seq<char>,
)
    requires
        !selectable(attrs),
    ensures
        attrs_labels(attrs).len() == 0,
        all_settled(attrs, vs, target_label) == Ok::<Seq<(Seq<char>, ValueView)>, ErrorView>(attrs),
    decreases attrs.len(),
{
    if attrs.len() > 0 {
        let before = attrs.drop_last();
        assert forall|i: int| 0 <= i < before.len() implies !((#[trigger] before[i]).1 is Select) by {
            assert(before[i] == attrs[i]);
        }
        assert(!(attrs[attrs.len() - 1].1 is Select));
        lemma_plain_attrs(before, vs, target_label);
        assert(attrs =~= before.push(attrs.last()));
    } else {
        assert(attrs =~= Seq::empty());
    }
}

/// Whether no value of an arm is selectable itself.
pub open spec fn plain_arm(arm: ArmView) -> bool {
    match arm {
        ArmView::Concrete(v) => !(v is Select),
        ArmView::Branch { conditions, .. } => forall|i: int|
            0 <= i < conditions.len() ==> !((#[trigger] conditions[i]).1 is Select),
    }
}

/// The value of a plain arm is not selectable.
proof fn lemma_plain_arm(arm: ArmView, vs: Verdicts, target_label: Seq<char>)
    requires
        plain_arm(arm),
        branch::arm_value(arm, vs, target_label) is Ok,
    ensures
        !(branch::arm_value(arm, vs, target_label)->Ok_0 is Select),
{
    if let ArmView::Branch { conditions, .. } = arm {
        let p = |c: (Seq<char>, ValueView)| branch::holds(c.0, vs);
        let m = branch::matching(conditions, vs);
        if m.len() == 0 {
            value::lemma_lookup(conditions, CONDITIONS_DEFAULT@);
        } else {
            let es = branch::entries(m, vs);
            let i = choose|i: int| branch::stands_out(es, i);
            assert(branch::stands_out(es, i));
            assert(es[i].value == m[i].1);
            assert(m.contains(m[i]));
            seqs::lemma_filter_contains(conditions, p, m[i]);
            let k = choose|k: int| 0 <= k < conditions.len() && conditions[k] == m[i];
            assert(!(conditions[k].1 is Select));
        }
    }
}

/// The values of plain arms are not selectable.
proof fn lemma_plain_arms(arms: Seq<ArmView>, vs: Verdicts, target_label: Seq<char>)
    requires
        forall|i: int| 0 <= i < arms.len() ==> plain_arm(#[trigger] arms[i]),
        branch::arm_values(arms, vs, target_label) is Ok,
    ensures
        ({
            let values = branch::arm_values(arms, vs, target_label)->Ok_0;
            forall|i: int| 0 <= i < values.len() ==> !(#[trigger] values[i] is Select)
        }),
    decreases arms.len(),
{
    if arms.len() > 0 {
        let before = arms.drop_last();
        assert forall|i: int| 0 <= i < before.len() implies plain_arm(#[trigger] before[i]) by {
            assert(before[i] == arms[i]);
        }
        lemma_plain_arms(before, vs, target_label);
        assert(plain_arm(arms[arms.len() - 1]));
        lemma_plain_arm(arms.last(), vs, target_label);
    }
}

/// Nothing selectable is left: where the arms hold no selectable values of their own, every
/// attribute of a resolved target has a plain value.
pub proof fn law_no_select_is_left(
    attrs: Seq<(Seq<char>, ValueView)>,
    vs: Verdicts,
    target_label: Seq<char>,
)
    requires
        forall|i: int, j: int|
            #![trigger attrs[i].1->Select_0[j]]
            0 <= i < attrs.len() && attrs[i].1 is Select && 0 <= j < attrs[i].1->Select_0.len()
                ==> plain_arm(attrs[i].1->Select_0[j]),
        all_settled(attrs, vs, target_label) is Ok,
    ensures
        !selectable(all_settled(attrs, vs, target_label)->Ok_0),
{
    let out = all_settled(attrs, vs, target_label)->Ok_0;
    law_attributes_are_kept(attrs, vs, target_label);
    assert forall|i: int| 0 <= i < out.len() implies !((#[trigger] out[i]).1 is Select) by {
        assert(out[i].0 == attrs[i].0);
        if attrs[i].1 is Select {
            let arms = attrs[i].1->Select_0;
            assert forall|j: int| 0 <= j < arms.len() implies plain_arm(#[trigger] arms[j]) by {
                assert(plain_arm(attrs[i].1->Select_0[j]));
            }
            lemma_plain_arms(arms, vs, target_label);
        }
    }
}

// ---- Laws of the conditions ----

/// A target is selectable exactly where one of its attributes is, wherever it stands.
pub proof fn law_one_selectable_attribute_is_enough(attrs: Seq<(Seq<char>, ValueView)>, i: int)
    ensures
        0 <= i < attrs.len() && attrs[i].1 is Select ==> selectable(attrs),
        selectable(attrs) ==> exists|k: int| 0 <= k < attrs.len() && (#[trigger] attrs[k]).1 is Select,
{
    if 0 <= i < attrs.len() && attrs[i].1 is Select {
        assert(attrs[i].1 is Select);
    }
}

/// Whether a condition of an arm has the given label.
pub open spec fn arm_stands_at(arms: Seq<ArmView>, b: int, c: int, l: Seq<char>) -> bool {
    &&& 0 <= b < arms.len()
    &&& arms[b] matches ArmView::Branch { conditions, .. }
    &&& 0 <= c < conditions.len()
    &&& conditions[c].0 == l
}

/// Whether a condition of an arm of an attribute has the given label.
pub open spec fn stands_at(
    attrs: Seq<(Seq<char>, ValueView)>,
    a: int,
    b: int,
    c: int,
    l: Seq<char>,
) -> bool {
    &&& 0 <= a < attrs.len()
    &&& attrs[a].1 matches ValueView::Select(arms)
    &&& arm_stands_at(arms, b, c, l)
}

/// The conditions of a target are the labels of all branches of all arms of all its attributes,
/// without the default; each is asked for once.
pub proof fn law_conditions_are_those_of_all_branches(
    attrs: Seq<(Seq<char>, ValueView)>,
    l: Seq<char>,
)
    ensures
        conditions_of(attrs).no_duplicates(),
        conditions_of(attrs).contains(l) <==> l != "//conditions:default"@ && exists|
            a: int,
            b: int,
            c: int,
        | stands_at(attrs, a, b, c, l),
{
    law_conditions_are_named_once(Seq::empty(), attrs_labels(attrs));
    lemma_attrs_labels(attrs, l);
}

/// The labels of some arms are those of the conditions of their branches.
proof fn lemma_arms_labels(arms: Seq<ArmView>, l: Seq<char>)
    ensures
        arms_labels(arms).contains(l) <==> exists|b: int, c: int|
            arm_stands_at(arms, b, c, l),
    decreases arms.len(),
{
    if arms.len() > 0 {
        let before = arms.drop_last();
        let n = arms.len() - 1;
        lemma_arms_labels(before, l);
        let last = match arms.last() {
            ArmView::Branch { conditions, .. } => branch::labels(conditions),
            ArmView::Concrete(_) => Seq::empty(),
        };
        seqs::lemma_add_contains(arms_labels(before), last, l);
        if arms_labels(before).contains(l) {
            let (b, c) = choose|b: int, c: int|
                arm_stands_at(before, b, c, l);
            assert(arms[b] == before[b]);
            assert(arm_stands_at(arms, b, c, l));
        }
        if last.contains(l) {
            let c = choose|c: int| 0 <= c < last.len() && last[c] == l;
            assert(arms[n] == arms.last());
            assert(arm_stands_at(arms, n, c, l));
        }
        if exists|b: int, c: int|
            arm_stands_at(arms, b, c, l) {
            let (b, c) = choose|b: int, c: int|
                arm_stands_at(arms, b, c, l);
            if b < n {
                assert(before[b] == arms[b]);
                assert(arm_stands_at(before, b, c, l));
            } else {
                assert(last[c] == l);
            }
        }
    }
}

/// The labels of some attributes are those of the conditions of the branches of their arms.
proof fn lemma_attrs_labels(attrs: Seq<(Seq<char>, ValueView)>, l: Seq<char>)
    ensures
        attrs_labels(attrs).contains(l) <==> exists|a: int, b: int, c: int|
            stands_at(attrs, a, b, c, l),
    decreases attrs.len(),
{
    if attrs.len() > 0 {
        let before = attrs.drop_last();
        let n = attrs.len() - 1;
        lemma_attrs_labels(before, l);
        let last = match attrs.last().1 {
            ValueView::Select(arms) => arms_labels(arms),
            _ => Seq::empty(),
        };
        seqs::lemma_add_contains(attrs_labels(before), last, l);
        if let ValueView::Select(arms) = attrs.last().1 {
            lemma_arms_labels(arms, l);
            if last.contains(l) {
                let (b, c) = choose|b: int, c: int|
                    arm_stands_at(arms, b, c, l);
                assert(stands_at(attrs, n, b, c, l));
            }
        }
        if attrs_labels(before).contains(l) {
            let (a, b, c) = choose|a: int, b: int, c: int| stands_at(before, a, b, c, l);
            assert(before[a] == attrs[a]);
            assert(stands_at(attrs, a, b, c, l));
        }
        if exists|a: int, b: int, c: int| stands_at(attrs, a, b, c, l) {
            let (a, b, c) = choose|a: int, b: int, c: int| stands_at(attrs, a, b, c, l);
            if a < n {
                assert(before[a] == attrs[a]);
                assert(stands_at(before, a, b, c, l));
            } else {
                let arms = attrs.last().1->Select_0;
                assert(arm_stands_at(arms, b, c, l));
                assert(last.contains(l));
            }
        }
    }
}

/// The conditions of more attributes are those of the first ones, and behind them those of the others
/// that were not named before; so it is with the arms of an attribute and with the branches of an arm.
pub proof fn law_conditions_keep_their_order(
    attrs: Seq<(Seq<char>, ValueView)>,
    attr: (Seq<char>, ValueView),
    arms: Seq<ArmView>,
    arm: ArmView,
    start: Seq<Seq<char>>,
    labels: Seq<Seq<char>>,
    l: Seq<char>,
)
    ensures
        conditions_of(Seq::empty()).len() == 0,
        conditions_of(attrs.push(attr)) == (match attr.1 {
            ValueView::Select(more) => gathered(conditions_of(attrs), arms_labels(more)),
            _ => conditions_of(attrs),
        }),
        arms_labels(Seq::empty()).len() == 0,
        arms_labels(arms.push(arm)) == (match arm {
            ArmView::Branch { conditions, .. } => arms_labels(arms) + conditions.map_values(
                |c: (Seq<char>, ValueView)| c.0,
            ),
            ArmView::Concrete(_) => arms_labels(arms),
        }),
        gathered(start, Seq::empty()) == start,
        gathered(start, labels.push(l)) == (if l == "//conditions:default"@ || gathered(
            start,
            labels,
        ).contains(l) {
            gathered(start, labels)
        } else {
            gathered(start, labels).push(l)
        }),
{
    assert(attrs.push(attr).drop_last() =~= attrs);
    assert(arms.push(arm).drop_last() =~= arms);
    assert(labels.push(l).drop_last() =~= labels);
    match attr.1 {
        ValueView::Select(more) => {
            lemma_gathered_in_parts(Seq::empty(), attrs_labels(attrs), arms_labels(more));
        },
        _ => {
            assert(attrs_labels(attrs.push(attr)) =~= attrs_labels(attrs));
        },
    }
}

// ---- Laws of the decision ----

/// Conditions are decided by their targets: where no condition fails, each that is built has the
/// match that its target carries, under its label, and no other label has one.
pub proof fn law_targets_decide_their_conditions(
    key: KeyView,
    labels: Seq<Seq<char>>,
    demands: Seq<DemandView>,
    vs: Verdicts,
)
    requires
        demands.len() <= labels.len(),
        labels.no_duplicates(),
        decided(key, labels, demands) == Ok::<Verdicts, ErrorView>(vs),
    ensures
        forall|i: int|
            0 <= i < demands.len() ==> (match #[trigger] demands[i] {
                DemandView::Missing => !vs.dom().contains(labels[i]),
                DemandView::Ready(NodeValueView::Target(t)) => vs.dom().contains(labels[i])
                    && select::match_of(t) == Some(vs[labels[i]]),
                DemandView::Ready(_) => false,
            }),
        forall|l: Seq<char>| #[trigger]
            vs.dom().contains(l) ==> exists|i: int|
                0 <= i < demands.len() && #[trigger] labels[i] == l && demands[i] is Ready,
    decreases demands.len(),
{
    if demands.len() > 0 {
        let before = demands.drop_last();
        let n = demands.len() - 1;
        let old_vs = decided(key, labels, before)->Ok_0;
        law_targets_decide_their_conditions(key, labels, before, old_vs);
        assert forall|i: int| 0 <= i < demands.len() implies (match #[trigger] demands[i] {
            DemandView::Missing => !vs.dom().contains(labels[i]),
            DemandView::Ready(NodeValueView::Target(t)) => vs.dom().contains(labels[i])
                && select::match_of(t) == Some(vs[labels[i]]),
            DemandView::Ready(_) => false,
        }) by {
            if i < n {
                assert(before[i] == demands[i]);
                assert(labels[i] != labels[n]);
            } else if old_vs.dom().contains(labels[n]) {
                let k = choose|k: int|
                    0 <= k < before.len() && #[trigger] labels[k] == labels[n] && before[k] is Ready;
                assert(k == n);
            }
        }
        assert forall|l: Seq<char>| #[trigger] vs.dom().contains(l) implies exists|i: int|
            0 <= i < demands.len() && #[trigger] labels[i] == l && demands[i] is Ready by {
            if old_vs.dom().contains(l) {
                let k = choose|k: int|
                    0 <= k < before.len() && #[trigger] labels[k] == l && before[k] is Ready;
                assert(before[k] == demands[k]);
                assert(labels[k] == l);
            } else {
                assert(labels[n] == l);
            }
        }
    }
}

/// Conditions are decided one after the other: one that is not built decides nothing, and of two with
/// one label the later counts.
pub proof fn law_conditions_are_decided_one_by_one(
    key: KeyView,
    labels: Seq<Seq<char>>,
    demands: Seq<DemandView>,
    vs: Verdicts,
    t: TargetView,
)
    requires
        decided(key, labels, demands) == Ok::<Verdicts, ErrorView>(vs),
    ensures
        decided(key, labels, Seq::empty()) == Ok::<Verdicts, ErrorView>(Map::empty()),
        decided(key, labels, demands.push(DemandView::Missing)) == Ok::<Verdicts, ErrorView>(vs),
        select::match_of(t) matches Some(v) ==> decided(
            key,
            labels,
            demands.push(DemandView::Ready(NodeValueView::Target(t))),
        ) == Ok::<Verdicts, ErrorView>(vs.insert(labels[demands.len() as int], v)),
{
    assert(demands.push(DemandView::Missing).drop_last() =~= demands);
    assert(demands.push(DemandView::Ready(NodeValueView::Target(t))).drop_last() =~= demands);
}

/// Whether a condition can be decided as far as it is built: its target carries a match.
pub open spec fn decidable(d: DemandView) -> bool {
    match d {
        DemandView::Missing => true,
        DemandView::Ready(NodeValueView::Target(t)) => select::match_of(t) is Some,
        DemandView::Ready(_) => false,
    }
}

/// Conditions fail for the first one that cannot be decided, and only for such a one: the failure
/// names the condition and the target, or says that the node holds no configured target.
pub proof fn law_first_undecidable_condition_fails(
    key: KeyView,
    labels: Seq<Seq<char>>,
    demands: Seq<DemandView>,
    i: int,
)
    ensures
        (forall|j: int| 0 <= j < demands.len() ==> decidable(#[trigger] demands[j])) ==> decided(
            key,
            labels,
            demands,
        ) is Ok,
        0 <= i < demands.len() && !decidable(demands[i]) && (forall|j: int|
            0 <= j < i ==> decidable(#[trigger] demands[j])) ==> decided(key, labels, demands)
            == Err::<Verdicts, ErrorView>(
            ErrorView::Invalid {
                what: "select condition"@,
                detail: if demands[i] matches DemandView::Ready(NodeValueView::Target(_)) {
                    "condition '"@ + labels[i] + "' of a select on //"@ + key.package + ":"@
                        + key.name + " is not a config_setting (no ConfigMatchInfo)"@
                } else {
                    "a select condition CT was not a ConfiguredTarget"@
                },
            },
        ),
    decreases demands.len(),
{
    if demands.len() > 0 {
        let before = demands.drop_last();
        let n = demands.len() - 1;
        assert(forall|j: int| 0 <= j < n ==> #[trigger] before[j] == demands[j]);
        assert(demands[n] == demands.last());
        law_first_undecidable_condition_fails(key, labels, before, i);
        if forall|j: int| 0 <= j < demands.len() ==> decidable(#[trigger] demands[j]) {
            assert(decidable(demands[n]));
        }
        if i == n && forall|j: int| 0 <= j < i ==> decidable(#[trigger] demands[j]) {
            assert(forall|j: int| 0 <= j < before.len() ==> decidable(#[trigger] before[j]));
        }
        if 0 <= i < n && !decidable(demands[i]) && forall|j: int|
            0 <= j < i ==> decidable(#[trigger] demands[j]) {
            assert(before[i] == demands[i]);
            assert(forall|j: int| 0 <= j < i ==> decidable(#[trigger] before[j]));
        }
    }
}

/// A plain value stays as it is; a selectable one becomes what its arms give.
pub proof fn law_plain_values_stay(
    v: ValueView,
    arms: Seq<ArmView>,
    vs: Verdicts,
    target_label: Seq<char>,
)
    ensures
        !(v is Select) ==> settled(v, vs, target_label) == Ok::<ValueView, ErrorView>(v),
        settled(ValueView::Select(arms), vs, target_label) == branch::attr_value(
            arms,
            vs,
            target_label,
        ),
{
}

/// Attributes that all have a value are settled, and the first that has none decides the failure.
pub proof fn law_first_unsettled_attribute_fails(
    attrs: Seq<(Seq<char>, ValueView)>,
    vs: Verdicts,
    target_label: Seq<char>,
    i: int,
)
    ensures
        (forall|j: int|
            0 <= j < attrs.len() ==> settled((#[trigger] attrs[j]).1, vs, target_label) is Ok)
            ==> all_settled(attrs, vs, target_label) is Ok,
        0 <= i < attrs.len() && settled(attrs[i].1, vs, target_label) is Err && (forall|j: int|
            0 <= j < i ==> settled((#[trigger] attrs[j]).1, vs, target_label) is Ok) ==> all_settled(
            attrs,
            vs,
            target_label,
        ) == Err::<Seq<(Seq<char>, ValueView)>, ErrorView>(
            settled(attrs[i].1, vs, target_label)->Err_0,
        ),
    decreases attrs.len(),
{
    if attrs.len() > 0 {
        let before = attrs.drop_last();
        let n = attrs.len() - 1;
        assert(forall|j: int| 0 <= j < n ==> #[trigger] before[j] == attrs[j]);
        assert(attrs[n] == attrs.last());
        law_first_unsettled_attribute_fails(before, vs, target_label, i);
        if forall|j: int|
            0 <= j < attrs.len() ==> settled((#[trigger] attrs[j]).1, vs, target_label) is Ok {
            assert(settled(attrs[n].1, vs, target_label) is Ok);
        }
        if i == n && forall|j: int|
            0 <= j < i ==> settled((#[trigger] attrs[j]).1, vs, target_label) is Ok {
            assert(forall|j: int|
                0 <= j < before.len() ==> settled((#[trigger] before[j]).1, vs, target_label) is Ok);
        }
        if 0 <= i < n && settled(attrs[i].1, vs, target_label) is Err && forall|j: int|
            0 <= j < i ==> settled((#[trigger] attrs[j]).1, vs, target_label) is Ok {
            assert(before[i] == attrs[i]);
            assert(forall|j: int|
                0 <= j < i ==> settled((#[trigger] before[j]).1, vs, target_label) is Ok);
        }
    }
}

/// A target is resolved in this order: a condition that cannot be decided fails it, then it waits for
/// the conditions that are not built, and only then its attributes are settled. All but the
/// attributes stays as it was declared.
pub proof fn law_conditions_come_before_attributes(
    key: KeyView,
    target: DeclView,
    labels: Seq<Seq<char>>,
    keys: Seq<NodeKeyView>,
    demands: Seq<DemandView>,
)
    requires
        demands.len() <= keys.len(),
    ensures
        decided(key, labels, demands) matches Err(e) ==> resolved(
            key,
            target,
            labels,
            keys,
            demands,
        ) == ResolutionView::Error(e),
        decided(key, labels, demands) is Ok && (exists|i: int|
            0 <= i < demands.len() && #[trigger] demands[i] is Missing) ==> resolved(
            key,
            target,
            labels,
            keys,
            demands,
        ) == ResolutionView::Missing(node::missing_among(keys, demands)),
        (forall|i: int| 0 <= i < demands.len() ==> !(#[trigger] demands[i] is Missing)) ==> (
        decided(key, labels, demands) matches Ok(vs) ==> (match all_settled(
            target.attrs,
            vs,
            label::rendered(key.package, key.name),
        ) {
            Err(e) => resolved(key, target, labels, keys, demands) == ResolutionView::Error(e),
            Ok(attrs) => resolved(key, target, labels, keys, demands) matches ResolutionView::Ready(
                t,
            ) && t.attrs == attrs && t.kind == target.kind && t.name == target.name && t.origin
                == target.origin,
        })),
{
    let missing = node::missing_among(keys, demands);
    if exists|i: int| 0 <= i < demands.len() && #[trigger] demands[i] is Missing {
        let i = choose|i: int| 0 <= i < demands.len() && #[trigger] demands[i] is Missing;
        node::law_missing_nodes_are_those_not_built(keys, demands, keys[i]);
        assert(missing.contains(keys[i]));
    }
    if missing.len() > 0 {
        node::law_missing_nodes_are_those_not_built(keys, demands, missing[0]);
        assert(missing.contains(missing[0]));
    }
}

/// Attributes are selectable where one of them is, wherever it stands, and the conditions that are
/// asked for are the labels of all their branches but the default, each once.
pub proof fn law_attributes_tell_their_conditions(
    attrs: Vec<(String, BzlValue)>,
    r: bool,
    labels: Vec<String>,
    l: Seq<char>,
)
    ensures
        call_ensures(has_select, (&attrs,), r) ==> (r <==> exists|i: int|
            0 <= i < attrs@.len() && (#[trigger] attrs@[i]).1 is Select),
        call_ensures(condition_labels, (&attrs,), labels) ==> text::texts(
            labels@,
        ).no_duplicates() && (text::texts(labels@).contains(l) <==> l != "//conditions:default"@
            && exists|a: int, b: int, c: int|
            stands_at(value::named_view(attrs@), a, b, c, l)),
{
    let all = value::named_view(attrs@);
    law_conditions_are_those_of_all_branches(all, l);
    assert forall|i: int| 0 <= i < attrs@.len() implies (#[trigger] attrs@[i]).1 is Select
        == all[i].1 is Select by {
        value::lemma_value_view(attrs@[i].1);
    }
    if selectable(all) {
        let i = choose|i: int| 0 <= i < all.len() && (#[trigger] all[i]).1 is Select;
        assert(attrs@[i].1 is Select);
    }
    if exists|i: int| 0 <= i < attrs@.len() && (#[trigger] attrs@[i]).1 is Select {
        let i = choose|i: int| 0 <= i < attrs@.len() && (#[trigger] attrs@[i]).1 is Select;
        assert(all[i].1 is Select);
    }
}

} // verus!
