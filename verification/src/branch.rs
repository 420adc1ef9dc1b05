//! The choice between the branches of a `select()`, and the join of its arms.

use vstd::prelude::*;
use crate::error::{self, invalid, Error, ErrorView};
use crate::outside::{self, list_text};
use crate::select::{self, CONDITIONS_DEFAULT};
use crate::seqs;
use crate::string_map::StringMap;
use crate::text::{self, contains_text, same_text};
use crate::value::{self, find_named, same_value, ArmView, BzlValue, SelectArm, ValueView};

verus! {

/// The matches of conditions, by label: whether the condition matched, and by which settings.
pub type Verdicts = Map<Seq<char>, (bool, Seq<Seq<char>>)>;

/// The models of the matches of a map.
pub open spec fn verdicts(m: Map<Seq<char>, (bool, Vec<String>)>) -> Verdicts {
    m.map_values(|v: (bool, Vec<String>)| select::verdict(v))
}

// ---- The winning condition ----

/// Whether a condition names a target: every one but the default does.
pub open spec fn names_target(label: Seq<char>) -> bool {
    label != CONDITIONS_DEFAULT@
}

/// Whether a condition names a target that matched.
pub open spec fn holds(label: Seq<char>, vs: Verdicts) -> bool {
    names_target(label) && vs.dom().contains(label) && vs[label].0
}

/// The branches whose condition matched, in order.
pub open spec fn matching(conditions: Seq<(Seq<char>, ValueView)>, vs: Verdicts) -> Seq<
    (Seq<char>, ValueView),
> {
    conditions.filter(|c: (Seq<char>, ValueView)| holds(c.0, vs))
}

/// The settings that a condition was matched by.
pub open spec fn settings(label: Seq<char>, vs: Verdicts) -> Set<Seq<char>> {
    vs[label].1.to_set()
}

/// Whether one set of settings is more specific than another: it holds all of it, and more.
pub open spec fn more_specific(a: Set<Seq<char>>, b: Set<Seq<char>>) -> bool {
    b.subset_of(a) && a != b
}

/// A branch that matched: its condition, its value and the settings that it was matched by.
pub struct Entry {
    pub label: Seq<char>,
    pub value: ValueView,
    pub settings: Set<Seq<char>>,
}

/// The branches that matched, with their settings.
pub open spec fn entries(matching: Seq<(Seq<char>, ValueView)>, vs: Verdicts) -> Seq<Entry> {
    matching.map_values(
        |c: (Seq<char>, ValueView)| Entry { label: c.0, value: c.1, settings: settings(c.0, vs) },
    )
}

/// Whether the entry at position `i` is more specific than every other one.
pub open spec fn stands_out(es: Seq<Entry>, i: int) -> bool {
    0 <= i < es.len() && forall|j: int|
        0 <= j < es.len() && j != i ==> more_specific(es[i].settings, (#[trigger] es[j]).settings)
}

/// The value of the most specific entry, where there is one.
pub open spec fn chosen(es: Seq<Entry>) -> Option<ValueView> {
    if exists|i: int| stands_out(es, i) {
        Some(es[choose|i: int| stands_out(es, i)].value)
    } else {
        None
    }
}

/// The failure of a branch none of whose conditions matched, and which has no default.
pub open spec fn no_match(
    conditions: Seq<(Seq<char>, ValueView)>,
    no_match_error: Seq<char>,
    target_label: Seq<char>,
) -> ErrorView {
    ErrorView::Invalid {
        what: "select"@,
        detail: if no_match_error.len() > 0 {
            no_match_error
        } else {
            "configurable attribute of '"@ + target_label
                + "' has no matching condition and no //conditions:default (conditions: "@
                + outside::listed(
                labels(conditions.filter(|c: (Seq<char>, ValueView)| names_target(c.0))),
            ) + ")"@
        },
    }
}

/// The failure of a branch with several matching conditions, none of which is the most specific.
pub open spec fn ambiguous(
    matching: Seq<(Seq<char>, ValueView)>,
    target_label: Seq<char>,
) -> ErrorView {
    ErrorView::Invalid {
        what: "select"@,
        detail: "configurable attribute of '"@ + target_label
            + "' matches multiple conditions with no most-specific resolution (ambiguous): "@
            + outside::listed(labels(matching)),
    }
}

/// The labels of some branches.
pub open spec fn labels(branches: Seq<(Seq<char>, ValueView)>) -> Seq<Seq<char>> {
    branches.map_values(|c: (Seq<char>, ValueView)| c.0)
}

/// The value of a branch: that of its most specific matching condition. The default counts only
/// where no condition matched.
pub open spec fn branch_value(
    conditions: Seq<(Seq<char>, ValueView)>,
    no_match_error: Seq<char>,
    vs: Verdicts,
    target_label: Seq<char>,
) -> Result<ValueView, ErrorView> {
    let m = matching(conditions, vs);
    if m.len() == 0 {
        match value::lookup(conditions, CONDITIONS_DEFAULT@) {
            Some(v) => Ok(v),
            None => Err(no_match(conditions, no_match_error, target_label)),
        }
    } else {
        match chosen(entries(m, vs)) {
            Some(v) => Ok(v),
            None => Err(ambiguous(m, target_label)),
        }
    }
}

/// Whether every text of one list stands in another.
fn all_among(a: &Vec<String>, b: &Vec<String>) -> (r: bool)
    ensures
        r == text::texts(a@).to_set().subset_of(text::texts(b@).to_set()),
{
    let ghost x = text::texts(a@);
    let ghost y = text::texts(b@);
    for i in 0..a.len()
        invariant
            x == text::texts(a@),
            y == text::texts(b@),
            forall|j: int| 0 <= j < i ==> y.contains(#[trigger] x[j]),
    {
        if !contains_text(b, &a[i]) {
            assert(x.to_set().contains(x[i as int]));
            assert(!y.to_set().contains(x[i as int]));
            return false;
        }
    }
    assert forall|t: Seq<char>| x.to_set().contains(t) implies y.to_set().contains(t) by {
        let j = choose|j: int| 0 <= j < x.len() && x[j] == t;
        assert(y.contains(x[j]));
    }
    true
}

/// The settings that a condition was matched by.
fn settings_of<'a>(matches: &'a StringMap<(bool, Vec<String>)>, label: &str) -> (r: Option<
    &'a Vec<String>,
>)
    ensures
        match r {
            Some(s) => holds_in(label@, verdicts(matches@)) && text::texts(s@).to_set() == settings(
                label@,
                verdicts(matches@),
            ),
            None => !holds_in(label@, verdicts(matches@)),
        },
{
    match matches.get(label) {
        Some(m) => if m.0 {
            Some(&m.1)
        } else {
            None
        },
        None => None,
    }
}

/// Whether a label leads to a match.
spec fn holds_in(label: Seq<char>, vs: Verdicts) -> bool {
    vs.dom().contains(label) && vs[label].0
}

/// The model of the branches that matched.
pub open spec fn entries_view(
    matching: Seq<(&String, &BzlValue, &Vec<String>)>,
) -> Seq<Entry> {
    matching.map_values(
        |e: (&String, &BzlValue, &Vec<String>)|
            Entry { label: e.0@, value: e.1@, settings: text::texts(e.2@).to_set() },
    )
}

/// Whether one list of settings is more specific than another.
fn specializes(a: &Vec<String>, b: &Vec<String>) -> (r: bool)
    ensures
        r == more_specific(text::texts(a@).to_set(), text::texts(b@).to_set()),
{
    let up = all_among(b, a);
    let down = all_among(a, b);
    proof {
        if up && down {
            assert(text::texts(a@).to_set() =~= text::texts(b@).to_set());
        }
    }
    up && !down
}

/// The value of the branch that is more specific than every other that matched.
pub fn most_specific<'a>(matching: &Vec<(&'a String, &'a BzlValue, &'a Vec<String>)>) -> (r: Option<
    &'a BzlValue,
>)
    ensures
        chosen(entries_view(matching@)) == (match r {
            Some(v) => Some(v@),
            None => None,
        }),
{
    let ghost es = entries_view(matching@);
    for i in 0..matching.len()
        invariant
            es == entries_view(matching@),
            forall|k: int| 0 <= k < i ==> !#[trigger] stands_out(es, k),
    {
        let mut all = true;
        for j in 0..matching.len()
            invariant
                0 <= i < matching@.len(),
                es == entries_view(matching@),
                all ==> forall|k: int|
                    0 <= k < j && k != i ==> more_specific(
                        es[i as int].settings,
                        (#[trigger] es[k]).settings,
                    ),
                !all ==> !stands_out(es, i as int),
        {
            if i != j && !specializes(matching[i].2, matching[j].2) {
                all = false;
                assert(!more_specific(es[i as int].settings, es[j as int].settings));
            }
        }
        if all {
            proof {
                law_chosen_stands_out(es, i as int);
            }
            return Some(matching[i].1);
        }
    }
    assert forall|k: int| !stands_out(es, k) by {
        if stands_out(es, k) {
            assert(0 <= k < matching@.len());
        }
    }
    None
}

/// The labels of the branches that matched.
fn labels_of_matching(matching: &Vec<(&String, &BzlValue, &Vec<String>)>) -> (r: Vec<String>)
    ensures
        text::texts(r@) == entries_view(matching@).map_values(|e: Entry| e.label),
{
    let mut r: Vec<String> = Vec::new();
    for i in 0..matching.len()
        invariant
            r@.len() == i,
            forall|j: int| 0 <= j < i ==> (#[trigger] r@[j])@ == matching@[j].0@,
    {
        r.push(matching[i].0.clone());
    }
    assert(text::texts(r@) =~= entries_view(matching@).map_values(|e: Entry| e.label));
    r
}

/// The labels of the conditions that name a target.
fn real_labels(conditions: &Vec<(String, BzlValue)>) -> (r: Vec<String>)
    ensures
        text::texts(r@) == labels(
            value::named_view(conditions@).filter(|c: (Seq<char>, ValueView)| names_target(c.0)),
        ),
{
    let ghost all = value::named_view(conditions@);
    let ghost p = |c: (Seq<char>, ValueView)| names_target(c.0);
    let mut r: Vec<String> = Vec::new();
    proof {
        reveal(Seq::filter);
        assert(text::texts(r@) =~= labels(all.take(0).filter(p)));
    }
    for i in 0..conditions.len()
        invariant
            all == value::named_view(conditions@),
            p == (|c: (Seq<char>, ValueView)| names_target(c.0)),
            text::texts(r@) == labels(all.take(i as int).filter(p)),
    {
        proof {
            assert(all.take(i + 1) =~= all.take(i as int).push(all[i as int]));
            seqs::lemma_filter_push(all.take(i as int), p, all[i as int]);
        }
        if !same_text(&conditions[i].0, CONDITIONS_DEFAULT) {
            let ghost before = text::texts(r@);
            r.push(conditions[i].0.clone());
            assert(text::texts(r@) =~= before.push(all[i as int].0));
            assert(text::texts(r@) =~= labels(all.take(i + 1).filter(p)));
        }
    }
    assert(all.take(conditions@.len() as int) =~= all);
    r
}

/// The value of one branch of a `select()`.
pub fn resolve_branch(
    conditions: &Vec<(String, BzlValue)>,
    no_match_error: &str,
    matches: &StringMap<(bool, Vec<String>)>,
    target_label: &str,
) -> (r: Result<BzlValue, Error>)
    ensures
        error::outcome(r) == branch_value(
            value::named_view(conditions@),
            no_match_error@,
            verdicts(matches@),
            target_label@,
        ),
{
    let ghost all = value::named_view(conditions@);
    let ghost vs = verdicts(matches@);
    let ghost p = |c: (Seq<char>, ValueView)| holds(c.0, vs);
    let mut found: Vec<(&String, &BzlValue, &Vec<String>)> = Vec::new();
    proof {
        reveal(Seq::filter);
        assert(entries_view(found@) =~= entries(all.take(0).filter(p), vs));
    }
    for i in 0..conditions.len()
        invariant
            all == value::named_view(conditions@),
            vs == verdicts(matches@),
            p == (|c: (Seq<char>, ValueView)| holds(c.0, vs)),
            entries_view(found@) == entries(all.take(i as int).filter(p), vs),
    {
        proof {
            assert(all.take(i + 1) =~= all.take(i as int).push(all[i as int]));
            seqs::lemma_filter_push(all.take(i as int), p, all[i as int]);
        }
        if !same_text(&conditions[i].0, CONDITIONS_DEFAULT) {
            if let Some(s) = settings_of(matches, &conditions[i].0) {
                let ghost before = entries_view(found@);
                found.push((&conditions[i].0, &conditions[i].1, s));
                assert(entries_view(found@) =~= before.push(
                    Entry {
                        label: all[i as int].0,
                        value: all[i as int].1,
                        settings: settings(all[i as int].0, vs),
                    },
                ));
                assert(entries_view(found@) =~= entries(all.take(i + 1).filter(p), vs));
            }
        }
    }
    assert(all.take(conditions@.len() as int) =~= all);
    let ghost m = matching(all, vs);
    assert(found@.len() == entries(m, vs).len());
    if found.len() == 0 {
        if let Some(v) = find_named(conditions, CONDITIONS_DEFAULT) {
            return Ok(v.clone());
        }
        if !no_match_error.is_empty() {
            return Err(invalid("select", no_match_error.to_owned()));
        }
        return Err(
            invalid(
                "select",
                "configurable attribute of '".to_owned().concat(target_label).concat(
                    "' has no matching condition and no //conditions:default (conditions: ",
                ).concat(&list_text(&real_labels(conditions))).concat(")"),
            ),
        );
    }
    match most_specific(&found) {
        Some(v) => Ok(v.clone()),
        None => {
            assert(entries_view(found@).map_values(|e: Entry| e.label) =~= labels(m));
            Err(
                invalid(
                    "select",
                    "configurable attribute of '".to_owned().concat(target_label).concat(
                        "' matches multiple conditions with no most-specific resolution (ambiguous): ",
                    ).concat(&list_text(&labels_of_matching(&found))),
                ),
            )
        },
    }
}

// ---- The join of the arms ----

/// The items of some lists, one list after the other.
pub open spec fn lists_joined(values: Seq<ValueView>) -> Seq<ValueView>
    decreases values.len(),
{
    if values.len() == 0 {
        Seq::empty()
    } else {
        lists_joined(values.drop_last()) + values.last()->List_0
    }
}

/// The pairs of some dictionaries, one dictionary after the other.
pub open spec fn pairs_joined(values: Seq<ValueView>) -> Seq<(ValueView, ValueView)>
    decreases values.len(),
{
    if values.len() == 0 {
        Seq::empty()
    } else {
        pairs_joined(values.drop_last()) + values.last()->Dict_0
    }
}

/// The dictionary that pairs make: a pair takes the place of every earlier one with its key.
pub open spec fn later_wins(pairs: Seq<(ValueView, ValueView)>) -> Seq<(ValueView, ValueView)>
    decreases pairs.len(),
{
    if pairs.len() == 0 {
        Seq::empty()
    } else {
        let last = pairs.last();
        later_wins(pairs.drop_last()).filter(|p: (ValueView, ValueView)| p.0 != last.0).push(last)
    }
}

/// The failure of arms that cannot be joined.
pub open spec fn not_joinable(target_label: Seq<char>) -> ErrorView {
    ErrorView::Invalid {
        what: "select"@,
        detail: "configurable attribute of '"@ + target_label
            + "' concatenates non-list/non-dict select arms (not joinable)"@,
    }
}

/// The join of the values of some arms: one value is itself, lists are put one after the other, and
/// of dictionaries the later pairs win. Nothing else can be joined.
pub open spec fn joined(values: Seq<ValueView>, target_label: Seq<char>) -> Result<
    ValueView,
    ErrorView,
> {
    if values.len() == 1 {
        Ok(values[0])
    } else if forall|i: int| 0 <= i < values.len() ==> #[trigger] values[i] is List {
        Ok(ValueView::List(lists_joined(values)))
    } else if forall|i: int| 0 <= i < values.len() ==> #[trigger] values[i] is Dict {
        Ok(ValueView::Dict(later_wins(pairs_joined(values))))
    } else {
        Err(not_joinable(target_label))
    }
}

/// The value of an arm.
pub open spec fn arm_value(arm: ArmView, vs: Verdicts, target_label: Seq<char>) -> Result<
    ValueView,
    ErrorView,
> {
    match arm {
        ArmView::Concrete(v) => Ok(v),
        ArmView::Branch { conditions, no_match_error } => branch_value(
            conditions,
            no_match_error,
            vs,
            target_label,
        ),
    }
}

/// The values of some arms. The first that has none decides the failure.
pub open spec fn arm_values(arms: Seq<ArmView>, vs: Verdicts, target_label: Seq<char>) -> Result<
    Seq<ValueView>,
    ErrorView,
>
    decreases arms.len(),
{
    if arms.len() == 0 {
        Ok(Seq::empty())
    } else {
        match arm_values(arms.drop_last(), vs, target_label) {
            Err(e) => Err(e),
            Ok(values) => match arm_value(arms.last(), vs, target_label) {
                Err(e) => Err(e),
                Ok(v) => Ok(values.push(v)),
            },
        }
    }
}

/// The value of a selectable attribute.
pub open spec fn attr_value(arms: Seq<ArmView>, vs: Verdicts, target_label: Seq<char>) -> Result<
    ValueView,
    ErrorView,
> {
    match arm_values(arms, vs, target_label) {
        Err(e) => Err(e),
        Ok(values) => joined(values, target_label),
    }
}

/// Whether every value is a list.
fn all_lists(values: &Vec<BzlValue>) -> (r: bool)
    ensures
        r == forall|i: int|
            0 <= i < values@.len() ==> #[trigger] value::values_view(values@)[i] is List,
{
    let ghost all = value::values_view(values@);
    for i in 0..values.len()
        invariant
            all == value::values_view(values@),
            forall|j: int| 0 <= j < i ==> #[trigger] all[j] is List,
    {
        match &values[i] {
            BzlValue::List(_) => {},
            _ => {
                assert(!(all[i as int] is List));
                return false;
            },
        }
    }
    true
}

/// Whether every value is a dictionary.
fn all_dicts(values: &Vec<BzlValue>) -> (r: bool)
    ensures
        r == forall|i: int|
            0 <= i < values@.len() ==> #[trigger] value::values_view(values@)[i] is Dict,
{
    let ghost all = value::values_view(values@);
    for i in 0..values.len()
        invariant
            all == value::values_view(values@),
            forall|j: int| 0 <= j < i ==> #[trigger] all[j] is Dict,
    {
        match &values[i] {
            BzlValue::Dict(_) => {},
            _ => {
                assert(!(all[i as int] is Dict));
                return false;
            },
        }
    }
    true
}

/// Puts a pair behind some pairs and takes out those with its key.
fn put_pair(pairs: Vec<(BzlValue, BzlValue)>, k: BzlValue, v: BzlValue) -> (r: Vec<
    (BzlValue, BzlValue),
>)
    ensures
        value::pairs_view(r@) == value::pairs_view(pairs@).filter(
            |p: (ValueView, ValueView)| p.0 != k@,
        ).push((k@, v@)),
{
    let ghost all = value::pairs_view(pairs@);
    let ghost others = |p: (ValueView, ValueView)| p.0 != k@;
    let mut r: Vec<(BzlValue, BzlValue)> = Vec::new();
    proof {
        reveal(Seq::filter);
        assert(value::pairs_view(r@) =~= all.take(0).filter(others));
    }
    for p in it: pairs
        invariant
            all == value::pairs_view(it.seq()),
            others == (|p: (ValueView, ValueView)| p.0 != k@),
            value::pairs_view(r@) == all.take(it.index() as int).filter(others),
    {
        let ghost i = it.index() as int;
        proof {
            assert(all.take(i + 1) =~= all.take(i).push(all[i]));
            seqs::lemma_filter_push(all.take(i), others, all[i]);
        }
        if !same_value(&p.0, &k) {
            let ghost before = value::pairs_view(r@);
            r.push(p);
            assert(value::pairs_view(r@) =~= before.push(all[i]));
        }
    }
    assert(all.take(all.len() as int) =~= all);
    let ghost kept = value::pairs_view(r@);
    let ghost last = (k@, v@);
    r.push((k, v));
    assert(value::pairs_view(r@) =~= kept.push(last));
    r
}

/// The dictionary of further pairs comes from the dictionary of the pairs before.
proof fn lemma_later_wins_push(pairs: Seq<(ValueView, ValueView)>, p: (ValueView, ValueView))
    ensures
        later_wins(pairs.push(p)) == later_wins(pairs).filter(
            |q: (ValueView, ValueView)| q.0 != p.0,
        ).push(p),
{
    assert(pairs.push(p).drop_last() =~= pairs);
}

/// The join of lists.
fn join_lists(values: Vec<BzlValue>) -> (r: Vec<BzlValue>)
    requires
        forall|i: int| 0 <= i < values@.len() ==> #[trigger] value::values_view(values@)[i] is List,
    ensures
        value::values_view(r@) == lists_joined(value::values_view(values@)),
{
    let ghost all = value::values_view(values@);
    let mut r: Vec<BzlValue> = Vec::new();
    assert(value::values_view(r@) =~= lists_joined(all.take(0)));
    for v in it: values
        invariant
            all == value::values_view(it.seq()),
            forall|i: int| 0 <= i < all.len() ==> #[trigger] all[i] is List,
            value::values_view(r@) == lists_joined(all.take(it.index() as int)),
    {
        let ghost i = it.index() as int;
        proof {
            value::lemma_value_view(v);
            assert(all.take(i + 1).drop_last() =~= all.take(i));
            assert(all[i] == v@);
        }
        match v {
            BzlValue::List(mut items) => {
                let ghost before = value::values_view(r@);
                let ghost these = value::values_view(items@);
                r.append(&mut items);
                assert(value::values_view(r@) =~= before + these);
            },
            _ => {},
        }
    }
    assert(all.take(all.len() as int) =~= all);
    r
}

/// The join of dictionaries.
fn join_dicts(values: Vec<BzlValue>) -> (r: Vec<(BzlValue, BzlValue)>)
    requires
        forall|i: int| 0 <= i < values@.len() ==> #[trigger] value::values_view(values@)[i] is Dict,
    ensures
        value::pairs_view(r@) == later_wins(pairs_joined(value::values_view(values@))),
{
    let ghost all = value::values_view(values@);
    let mut r: Vec<(BzlValue, BzlValue)> = Vec::new();
    assert(value::pairs_view(r@) =~= later_wins(pairs_joined(all.take(0))));
    for v in it: values
        invariant
            all == value::values_view(it.seq()),
            forall|i: int| 0 <= i < all.len() ==> #[trigger] all[i] is Dict,
            value::pairs_view(r@) == later_wins(pairs_joined(all.take(it.index() as int))),
    {
        let ghost i = it.index() as int;
        let ghost before = pairs_joined(all.take(i));
        proof {
            value::lemma_value_view(v);
            assert(all.take(i + 1).drop_last() =~= all.take(i));
            assert(all[i] == v@);
        }
        match v {
            BzlValue::Dict(pairs) => {
                let ghost these = value::pairs_view(pairs@);
                assert(before + these.take(0) =~= before);
                for p in jt: pairs
                    invariant
                        these == value::pairs_view(jt.seq()),
                        value::pairs_view(r@) == later_wins(before + these.take(jt.index() as int)),
                {
                    let ghost j = jt.index() as int;
                    proof {
                        assert(before + these.take(j + 1) =~= (before + these.take(j)).push(
                            these[j],
                        ));
                        lemma_later_wins_push(before + these.take(j), these[j]);
                    }
                    r = put_pair(r, p.0, p.1);
                }
                assert(these.take(these.len() as int) =~= these);
            },
            _ => {},
        }
    }
    assert(all.take(all.len() as int) =~= all);
    r
}

/// The join of the values of some arms.
pub fn concat_resolved(values: Vec<BzlValue>, target_label: &str) -> (r: Result<BzlValue, Error>)
    ensures
        error::outcome(r) == joined(value::values_view(values@), target_label@),
{
    if values.len() == 1 {
        let mut values = values;
        return Ok(values.remove(0));
    }
    if all_lists(&values) {
        let r = BzlValue::List(join_lists(values));
        proof {
            value::lemma_value_view(r);
        }
        return Ok(r);
    }
    if all_dicts(&values) {
        let r = BzlValue::Dict(join_dicts(values));
        proof {
            value::lemma_value_view(r);
        }
        return Ok(r);
    }
    Err(
        invalid(
            "select",
            "configurable attribute of '".to_owned().concat(target_label).concat(
                "' concatenates non-list/non-dict select arms (not joinable)",
            ),
        ),
    )
}

/// A failure among the first arms is the failure of all.
proof fn lemma_arm_values_prefix(arms: Seq<ArmView>, vs: Verdicts, target_label: Seq<char>, n: int)
    requires
        0 <= n <= arms.len(),
        arm_values(arms.take(n), vs, target_label) is Err,
    ensures
        arm_values(arms, vs, target_label) == arm_values(arms.take(n), vs, target_label),
    decreases arms.len() - n,
{
    if n < arms.len() {
        assert(arms.take(n + 1).drop_last() =~= arms.take(n));
        lemma_arm_values_prefix(arms, vs, target_label, n + 1);
    } else {
        assert(arms.take(n) =~= arms);
    }
}

/// The value of a selectable attribute, by the matches of its conditions.
pub fn resolve_select_attr(
    arms: &[SelectArm],
    matches: &StringMap<(bool, Vec<String>)>,
    target_label: &str,
) -> (r: Result<BzlValue, Error>)
    ensures
        error::outcome(r) == attr_value(
            value::arms_view(arms@),
            verdicts(matches@),
            target_label@,
        ),
{
    let ghost all = value::arms_view(arms@);
    let ghost vs = verdicts(matches@);
    let mut resolved: Vec<BzlValue> = Vec::new();
    assert(value::values_view(resolved@) =~= Seq::empty());
    for i in 0..arms.len()
        invariant
            all == value::arms_view(arms@),
            vs == verdicts(matches@),
            arm_values(all.take(i as int), vs, target_label@) == Ok::<Seq<ValueView>, ErrorView>(
                value::values_view(resolved@),
            ),
    {
        proof {
            value::lemma_arm_view(arms@[i as int]);
            assert(all.take(i + 1).drop_last() =~= all.take(i as int));
        }
        let ghost before = value::values_view(resolved@);
        let v = match &arms[i] {
            SelectArm::Concrete(v) => v.clone(),
            SelectArm::Branch { conditions, no_match_error } => {
                match resolve_branch(conditions, no_match_error, matches, target_label) {
                    Ok(v) => v,
                    Err(e) => {
                        proof {
                            lemma_arm_values_prefix(all, vs, target_label@, i + 1);
                        }
                        return Err(e);
                    },
                }
            },
        };
        resolved.push(v);
        assert(value::values_view(resolved@) =~= before.push(v@));
    }
    assert(all.take(arms@.len() as int) =~= all);
    concat_resolved(resolved, target_label)
}

// ---- Laws of the most specific entry ----

/// At most one entry is more specific than every other.
pub proof fn law_one_entry_stands_out(es: Seq<Entry>, i: int, j: int)
    requires
        stands_out(es, i),
        stands_out(es, j),
    ensures
        i == j,
{
    if i != j {
        assert(more_specific(es[i].settings, es[j].settings));
        assert(more_specific(es[j].settings, es[i].settings));
        assert(es[i].settings =~= es[j].settings);
    }
}

/// The value that is chosen is that of the entry which is more specific than every other.
pub proof fn law_chosen_stands_out(es: Seq<Entry>, i: int)
    requires
        stands_out(es, i),
    ensures
        chosen(es) == Some(es[i].value),
{
    let c = choose|c: int| stands_out(es, c);
    law_one_entry_stands_out(es, c, i);
}

/// Nothing else is chosen: a value comes from an entry that is more specific than every other, and
/// there is none where there is no such entry.
pub proof fn law_only_what_stands_out_is_chosen(es: Seq<Entry>, v: ValueView)
    ensures
        chosen(es) == Some(v) <==> exists|i: int| #[trigger] stands_out(es, i) && es[i].value == v,
        chosen(es) is None <==> forall|i: int| !stands_out(es, i),
        es.len() == 0 ==> chosen(es) is None,
        es.len() == 1 ==> chosen(es) == Some(es[0].value),
{
    if exists|i: int| #[trigger] stands_out(es, i) && es[i].value == v {
        let i = choose|i: int| #[trigger] stands_out(es, i) && es[i].value == v;
        law_chosen_stands_out(es, i);
    }
    if es.len() == 1 {
        assert(stands_out(es, 0));
        law_chosen_stands_out(es, 0);
    }
}

/// Neither the order of the entries nor their labels have any influence: entries with the same values
/// and settings, each as often, give the same choice.
pub proof fn law_choice_forgets_order_and_labels(es: Seq<Entry>, fs: Seq<Entry>)
    requires
        unlabelled(es).to_multiset() == unlabelled(fs).to_multiset(),
    ensures
        chosen(es) == chosen(fs),
{
    if exists|i: int| stands_out(es, i) {
        let i = choose|i: int| stands_out(es, i);
        lemma_stands_out_in_any_order(es, fs, i);
    } else if exists|i: int| stands_out(fs, i) {
        let i = choose|i: int| stands_out(fs, i);
        lemma_stands_out_in_any_order(fs, es, i);
    }
}

/// Entries without their labels.
pub open spec fn unlabelled(es: Seq<Entry>) -> Seq<(ValueView, Set<Seq<char>>)> {
    es.map_values(|e: Entry| (e.value, e.settings))
}

/// What is chosen of some entries is chosen of them in any other order.
proof fn lemma_stands_out_in_any_order(es: Seq<Entry>, fs: Seq<Entry>, i: int)
    requires
        stands_out(es, i),
        unlabelled(es).to_multiset() == unlabelled(fs).to_multiset(),
    ensures
        chosen(es) == chosen(fs),
        exists|k: int| stands_out(fs, k),
{
    let (a, b) = (unlabelled(es), unlabelled(fs));
    seqs::lemma_permuted(a, b, i);
    let k = choose|k: int| 0 <= k < b.len() && b[k] == a[i];
    assert forall|l: int| 0 <= l < fs.len() && l != k implies more_specific(
        fs[k].settings,
        (#[trigger] fs[l]).settings,
    ) by {
        seqs::lemma_permuted_other(a, b, i, k, l);
        let j = choose|j: int| 0 <= j < a.len() && j != i && a[j] == b[l];
        assert(more_specific(es[i].settings, es[j].settings));
        assert(a[j] == (es[j].value, es[j].settings) && b[l] == (fs[l].value, fs[l].settings));
    }
    assert(stands_out(fs, k));
    law_chosen_stands_out(es, i);
    law_chosen_stands_out(fs, k);
}

// ---- Laws of selection ----

/// Whether the branch at position `i` matched and is more specific than every other that matched.
pub open spec fn prevails(
    conditions: Seq<(Seq<char>, ValueView)>,
    vs: Verdicts,
    i: int,
) -> bool {
    &&& 0 <= i < conditions.len()
    &&& holds(conditions[i].0, vs)
    &&& forall|j: int|
        0 <= j < conditions.len() && j != i && holds((#[trigger] conditions[j]).0, vs)
            ==> more_specific(settings(conditions[i].0, vs), settings(conditions[j].0, vs))
}

/// Whether no condition matched.
pub open spec fn none_holds(conditions: Seq<(Seq<char>, ValueView)>, vs: Verdicts) -> bool {
    forall|i: int| 0 <= i < conditions.len() ==> !holds((#[trigger] conditions[i]).0, vs)
}

/// A branch prevails exactly where it stands out among those that matched.
proof fn lemma_prevails(conditions: Seq<(Seq<char>, ValueView)>, vs: Verdicts)
    ensures
        matching(conditions, vs).len() == 0 <==> none_holds(conditions, vs),
        forall|i: int| #[trigger] prevails(conditions, vs, i) ==> exists|k: int|
            stands_out(entries(matching(conditions, vs), vs), k) && matching(conditions, vs)[k]
                == conditions[i],
        forall|k: int| #[trigger]
            stands_out(entries(matching(conditions, vs), vs), k) ==> exists|i: int|
                prevails(conditions, vs, i) && matching(conditions, vs)[k] == conditions[i],
{
    let p = |c: (Seq<char>, ValueView)| holds(c.0, vs);
    let m = matching(conditions, vs);
    let es = entries(m, vs);
    let at = seqs::positions(conditions, p);
    seqs::lemma_filter_positions(conditions, p);
    if m.len() == 0 {
        assert forall|i: int| 0 <= i < conditions.len() implies !holds(
            (#[trigger] conditions[i]).0,
            vs,
        ) by {
            if p(conditions[i]) {
                assert(at.contains(i));
            }
        }
    } else {
        assert(holds(conditions[at[0]].0, vs));
    }
    assert forall|i: int| #[trigger] prevails(conditions, vs, i) implies exists|k: int|
        stands_out(es, k) && m[k] == conditions[i] by {
        assert(p(conditions[i]));
        let k = choose|k: int| 0 <= k < at.len() && at[k] == i;
        assert forall|l: int| 0 <= l < es.len() && l != k implies more_specific(
            es[k].settings,
            (#[trigger] es[l]).settings,
        ) by {
            assert(at[l] != at[k]);
            assert(m[l] == conditions[at[l]]);
            assert(holds(conditions[at[l]].0, vs));
        }
        assert(stands_out(es, k));
    }
    assert forall|k: int| #[trigger] stands_out(es, k) implies exists|i: int|
        prevails(conditions, vs, i) && m[k] == conditions[i] by {
        let i = at[k];
        assert forall|j: int|
            0 <= j < conditions.len() && j != i && holds(
                (#[trigger] conditions[j]).0,
                vs,
            ) implies more_specific(
            settings(conditions[i].0, vs),
            settings(conditions[j].0, vs),
        ) by {
            assert(p(conditions[j]));
            let l = choose|l: int| 0 <= l < at.len() && at[l] == j;
            assert(m[l] == conditions[j]);
            assert(more_specific(es[k].settings, es[l].settings));
        }
        assert(prevails(conditions, vs, i));
    }
}

/// The most specific match decides: a branch that matched and is more specific than every other that
/// matched gives the value, wherever it stands and whatever the default is.
#[verifier::rlimit(30)]
pub proof fn law_most_specific_wins(
    conditions: Seq<(Seq<char>, ValueView)>,
    no_match_error: Seq<char>,
    vs: Verdicts,
    target_label: Seq<char>,
    i: int,
)
    requires
        prevails(conditions, vs, i),
    ensures
        branch_value(conditions, no_match_error, vs, target_label) == Ok::<ValueView, ErrorView>(
            conditions[i].1,
        ),
{
    let m = matching(conditions, vs);
    lemma_prevails(conditions, vs);
    let k = choose|k: int| stands_out(entries(m, vs), k) && m[k] == conditions[i];
    law_chosen_stands_out(entries(m, vs), k);
}

/// There is no silent choice: a branch has a value only where one of its conditions prevails, or
/// where none matched and there is a default. In every other case it fails.
pub proof fn law_no_silent_choice(
    conditions: Seq<(Seq<char>, ValueView)>,
    no_match_error: Seq<char>,
    vs: Verdicts,
    target_label: Seq<char>,
)
    ensures
        branch_value(conditions, no_match_error, vs, target_label) is Ok <==> {
            ||| exists|i: int| prevails(conditions, vs, i)
            ||| none_holds(conditions, vs) && value::lookup(conditions, CONDITIONS_DEFAULT@) is Some
        },
{
    let m = matching(conditions, vs);
    lemma_prevails(conditions, vs);
    if exists|i: int| prevails(conditions, vs, i) {
        let i = choose|i: int| prevails(conditions, vs, i);
        law_most_specific_wins(conditions, no_match_error, vs, target_label, i);
    } else if exists|k: int| stands_out(entries(m, vs), k) {
        let k = choose|k: int| stands_out(entries(m, vs), k);
        let i = choose|i: int| prevails(conditions, vs, i) && m[k] == conditions[i];
        assert(prevails(conditions, vs, i));
    }
}

/// The default is the last resort: it gives the value where no condition matched.
pub proof fn law_default_is_the_last_resort(
    conditions: Seq<(Seq<char>, ValueView)>,
    no_match_error: Seq<char>,
    vs: Verdicts,
    target_label: Seq<char>,
)
    requires
        none_holds(conditions, vs),
    ensures
        branch_value(conditions, no_match_error, vs, target_label) == (match value::lookup(
            conditions,
            CONDITIONS_DEFAULT@,
        ) {
            Some(v) => Ok(v),
            None => Err(no_match(conditions, no_match_error, target_label)),
        }),
{
    lemma_prevails(conditions, vs);
}

/// At most one branch prevails.
pub proof fn law_one_branch_prevails(
    conditions: Seq<(Seq<char>, ValueView)>,
    vs: Verdicts,
    i: int,
    j: int,
)
    requires
        prevails(conditions, vs, i),
        prevails(conditions, vs, j),
    ensures
        i == j,
{
    if i != j {
        assert(holds(conditions[j].0, vs) && holds(conditions[i].0, vs));
        assert(settings(conditions[i].0, vs) =~= settings(conditions[j].0, vs));
    }
}

/// Whether no two branches have the same condition.
pub open spec fn labels_distinct(conditions: Seq<(Seq<char>, ValueView)>) -> bool {
    forall|i: int, j: int|
        0 <= i < j < conditions.len() ==> (#[trigger] conditions[i]).0 != (
        #[trigger] conditions[j]).0
}

/// The order of the conditions has no influence: where each condition stands once, the same branches
/// in another order have the same value, or none at all.
pub proof fn law_choice_forgets_the_order_of_conditions(
    a: Seq<(Seq<char>, ValueView)>,
    b: Seq<(Seq<char>, ValueView)>,
    no_match_error: Seq<char>,
    vs: Verdicts,
    target_label: Seq<char>,
)
    requires
        labels_distinct(a),
        a.to_multiset() == b.to_multiset(),
    ensures
        branch_value(a, no_match_error, vs, target_label) is Ok <==> branch_value(
            b,
            no_match_error,
            vs,
            target_label,
        ) is Ok,
        branch_value(a, no_match_error, vs, target_label) is Ok ==> branch_value(
            a,
            no_match_error,
            vs,
            target_label,
        ) == branch_value(b, no_match_error, vs, target_label),
{
    lemma_labels_stay_distinct(a, b);
    if branch_value(a, no_match_error, vs, target_label) is Ok {
        lemma_value_in_any_order(a, b, no_match_error, vs, target_label);
    }
    if branch_value(b, no_match_error, vs, target_label) is Ok {
        lemma_value_in_any_order(b, a, no_match_error, vs, target_label);
    }
}

/// Conditions that stand once stand once in any order.
proof fn lemma_labels_stay_distinct(
    a: Seq<(Seq<char>, ValueView)>,
    b: Seq<(Seq<char>, ValueView)>,
)
    requires
        labels_distinct(a),
        a.to_multiset() == b.to_multiset(),
    ensures
        labels_distinct(b),
{
    assert forall|k: int, l: int| 0 <= k < l < b.len() implies (#[trigger] b[k]).0 != (
    #[trigger] b[l]).0 by {
        seqs::lemma_permuted(b, a, k);
        let i = choose|i: int| 0 <= i < a.len() && a[i] == b[k];
        seqs::lemma_permuted_other(a, b, i, k, l);
        let j = choose|j: int| 0 <= j < a.len() && j != i && a[j] == b[l];
        assert(a[i].0 != a[j].0);
    }
}

/// What a branch of a sequence leads to, it leads to in any order.
proof fn lemma_lookup_in_any_order(
    a: Seq<(Seq<char>, ValueView)>,
    b: Seq<(Seq<char>, ValueView)>,
    name: Seq<char>,
)
    requires
        labels_distinct(b),
        a.to_multiset() == b.to_multiset(),
        value::lookup(a, name) is Some,
    ensures
        value::lookup(b, name) == value::lookup(a, name),
{
    value::lemma_lookup(a, name);
    value::lemma_lookup(b, name);
    let i = choose|i: int|
        0 <= i < a.len() && (#[trigger] a[i]).0 == name && value::lookup(a, name) == Some(a[i].1);
    seqs::lemma_permuted(a, b, i);
    let k = choose|k: int| 0 <= k < b.len() && b[k] == a[i];
    assert forall|l: int| 0 <= l < k implies (#[trigger] b[l]).0 != name by {
        assert(b[l].0 != b[k].0);
    }
    assert(b[k].0 == name);
}

/// The value of a branch is its value in any order of the conditions.
proof fn lemma_value_in_any_order(
    a: Seq<(Seq<char>, ValueView)>,
    b: Seq<(Seq<char>, ValueView)>,
    no_match_error: Seq<char>,
    vs: Verdicts,
    target_label: Seq<char>,
)
    requires
        labels_distinct(b),
        a.to_multiset() == b.to_multiset(),
        branch_value(a, no_match_error, vs, target_label) is Ok,
    ensures
        branch_value(b, no_match_error, vs, target_label) == branch_value(
            a,
            no_match_error,
            vs,
            target_label,
        ),
{
    law_no_silent_choice(a, no_match_error, vs, target_label);
    if exists|i: int| prevails(a, vs, i) {
        let i = choose|i: int| prevails(a, vs, i);
        seqs::lemma_permuted(a, b, i);
        let k = choose|k: int| 0 <= k < b.len() && b[k] == a[i];
        assert forall|l: int|
            0 <= l < b.len() && l != k && holds((#[trigger] b[l]).0, vs) implies more_specific(
            settings(b[k].0, vs),
            settings(b[l].0, vs),
        ) by {
            seqs::lemma_permuted_other(a, b, i, k, l);
            let j = choose|j: int| 0 <= j < a.len() && j != i && a[j] == b[l];
            assert(holds(a[j].0, vs));
        }
        assert(prevails(b, vs, k));
        law_most_specific_wins(a, no_match_error, vs, target_label, i);
        law_most_specific_wins(b, no_match_error, vs, target_label, k);
    } else {
        assert forall|k: int| 0 <= k < b.len() implies !holds((#[trigger] b[k]).0, vs) by {
            seqs::lemma_permuted(b, a, k);
            let i = choose|i: int| 0 <= i < a.len() && a[i] == b[k];
            assert(!holds(a[i].0, vs));
        }
        law_default_is_the_last_resort(a, no_match_error, vs, target_label);
        law_default_is_the_last_resort(b, no_match_error, vs, target_label);
        lemma_lookup_in_any_order(a, b, CONDITIONS_DEFAULT@);
    }
}

/// Lists are joined by concatenation: the join of more lists is the join of the first ones, followed
/// by the join of the others.
pub proof fn law_lists_concatenate(a: Seq<ValueView>, b: Seq<ValueView>)
    ensures
        lists_joined(a + b) == lists_joined(a) + lists_joined(b),
    decreases b.len(),
{
    if b.len() == 0 {
        assert(a + b =~= a);
    } else {
        law_lists_concatenate(a, b.drop_last());
        assert((a + b).drop_last() =~= a + b.drop_last());
        assert((a + b).last() == b.last());
    }
}

/// No key stands twice in the join of dictionaries, and each pair of it was given.
pub proof fn law_joined_keys_are_distinct(pairs: Seq<(ValueView, ValueView)>)
    ensures
        forall|i: int, j: int|
            0 <= i < j < later_wins(pairs).len() ==> (#[trigger] later_wins(pairs)[i]).0 != (
            #[trigger] later_wins(pairs)[j]).0,
        forall|i: int| 0 <= i < later_wins(pairs).len() ==> pairs.contains(
            #[trigger] later_wins(pairs)[i],
        ),
    decreases pairs.len(),
{
    if pairs.len() > 0 {
        let before = later_wins(pairs.drop_last());
        let last = pairs.last();
        let p = |q: (ValueView, ValueView)| q.0 != last.0;
        let r = later_wins(pairs);
        let at = seqs::positions(before, p);
        law_joined_keys_are_distinct(pairs.drop_last());
        seqs::lemma_filter_positions(before, p);
        assert forall|i: int, j: int| 0 <= i < j < r.len() implies (#[trigger] r[i]).0 != (
        #[trigger] r[j]).0 by {
            assert(r[i] == before[at[i]] && p(before[at[i]]));
            if j < r.len() - 1 {
                assert(r[j] == before[at[j]]);
                assert(at[i] < at[j]);
            }
        }
        assert forall|i: int| 0 <= i < r.len() implies pairs.contains(#[trigger] r[i]) by {
            if i < r.len() - 1 {
                assert(r[i] == before[at[i]]);
                assert(pairs.drop_last().contains(before[at[i]]));
                let k = choose|k: int| 0 <= k < pairs.len() - 1 && pairs[k] == before[at[i]];
                assert(pairs[k] == r[i]);
            } else {
                assert(pairs[pairs.len() - 1] == r[i]);
            }
        }
    }
}

/// Of the pairs with one key, the last is the one that the join of dictionaries holds.
pub proof fn law_later_pairs_win(pairs: Seq<(ValueView, ValueView)>, i: int)
    requires
        0 <= i < pairs.len(),
        forall|j: int| i < j < pairs.len() ==> (#[trigger] pairs[j]).0 != pairs[i].0,
    ensures
        later_wins(pairs).contains(pairs[i]),
    decreases pairs.len(),
{
    let before = later_wins(pairs.drop_last());
    let last = pairs.last();
    let p = |q: (ValueView, ValueView)| q.0 != last.0;
    if i == pairs.len() - 1 {
        assert(later_wins(pairs)[later_wins(pairs).len() - 1] == last);
    } else {
        law_later_pairs_win(pairs.drop_last(), i);
        assert(pairs[pairs.len() - 1].0 != pairs[i].0);
        seqs::lemma_filter_contains(before, p, pairs[i]);
        seqs::lemma_push_contains(before.filter(p), last, pairs[i]);
    }
}

// ---- Laws of the arms ----

/// A concrete arm has its own value, and a branch the value that its conditions choose.
pub proof fn law_concrete_arms_are_their_value(
    v: ValueView,
    conditions: Seq<(Seq<char>, ValueView)>,
    no_match_error: Seq<char>,
    vs: Verdicts,
    target_label: Seq<char>,
)
    ensures
        arm_value(ArmView::Concrete(v), vs, target_label) == Ok::<ValueView, ErrorView>(v),
        arm_value(ArmView::Branch { conditions, no_match_error }, vs, target_label) == branch_value(
            conditions,
            no_match_error,
            vs,
            target_label,
        ),
{
}

/// Every arm counts: the values of some arms are as many as the arms, and each is that of the arm at
/// its position.
pub proof fn law_every_arm_counts(arms: Seq<ArmView>, vs: Verdicts, target_label: Seq<char>)
    ensures
        arm_values(arms, vs, target_label) matches Ok(values) ==> values.len() == arms.len()
            && forall|i: int|
            0 <= i < arms.len() ==> (match #[trigger] arms[i] {
                ArmView::Concrete(v) => values[i] == v,
                ArmView::Branch { conditions, no_match_error } => branch_value(
                    conditions,
                    no_match_error,
                    vs,
                    target_label,
                ) == Ok::<ValueView, ErrorView>(values[i]),
            }),
    decreases arms.len(),
{
    if arms.len() > 0 {
        law_every_arm_counts(arms.drop_last(), vs, target_label);
        if let Ok(values) = arm_values(arms, vs, target_label) {
            let before = arm_values(arms.drop_last(), vs, target_label)->Ok_0;
            assert forall|i: int| 0 <= i < arms.len() implies (match #[trigger] arms[i] {
                ArmView::Concrete(v) => values[i] == v,
                ArmView::Branch { conditions, no_match_error } => branch_value(
                    conditions,
                    no_match_error,
                    vs,
                    target_label,
                ) == Ok::<ValueView, ErrorView>(values[i]),
            }) by {
                if i < arms.len() - 1 {
                    assert(arms.drop_last()[i] == arms[i]);
                    assert(values[i] == before[i]);
                }
            }
        }
    }
}

/// Arms that all have a value have their values, in order.
pub proof fn law_arms_with_values_have_them(
    arms: Seq<ArmView>,
    vs: Verdicts,
    target_label: Seq<char>,
    values: Seq<ValueView>,
)
    requires
        values.len() == arms.len(),
        forall|i: int|
            0 <= i < arms.len() ==> arm_value(#[trigger] arms[i], vs, target_label) == Ok::<
                ValueView,
                ErrorView,
            >(values[i]),
    ensures
        arm_values(arms, vs, target_label) == Ok::<Seq<ValueView>, ErrorView>(values),
    decreases arms.len(),
{
    if arms.len() > 0 {
        let before = arms.drop_last();
        assert forall|i: int| 0 <= i < before.len() implies arm_value(
            #[trigger] before[i],
            vs,
            target_label,
        ) == Ok::<ValueView, ErrorView>(values.drop_last()[i]) by {
            assert(before[i] == arms[i]);
        }
        law_arms_with_values_have_them(before, vs, target_label, values.drop_last());
        assert(arms[arms.len() - 1] == arms.last());
        assert(values =~= values.drop_last().push(values.last()));
    } else {
        assert(values =~= Seq::empty());
    }
}

/// The first arm without a value decides the failure, whatever stands behind it.
pub proof fn law_first_failing_arm_decides(
    arms: Seq<ArmView>,
    vs: Verdicts,
    target_label: Seq<char>,
    i: int,
    e: ErrorView,
)
    requires
        0 <= i < arms.len(),
        arm_value(arms[i], vs, target_label) == Err::<ValueView, ErrorView>(e),
        forall|j: int| 0 <= j < i ==> arm_value(#[trigger] arms[j], vs, target_label) is Ok,
    ensures
        arm_values(arms, vs, target_label) == Err::<Seq<ValueView>, ErrorView>(e),
        attr_value(arms, vs, target_label) == Err::<ValueView, ErrorView>(e),
{
    let before = arms.take(i);
    let values = Seq::new(before.len(), |j: int| arm_value(arms[j], vs, target_label)->Ok_0);
    assert forall|j: int| 0 <= j < before.len() implies arm_value(
        #[trigger] before[j],
        vs,
        target_label,
    ) == Ok::<ValueView, ErrorView>(values[j]) by {
        assert(before[j] == arms[j]);
    }
    law_arms_with_values_have_them(before, vs, target_label, values);
    assert(arms.take(i + 1).drop_last() =~= before);
    lemma_arm_values_prefix(arms, vs, target_label, i + 1);
}

/// The attribute of a single arm is the value of the arm, whatever it is.
pub proof fn law_a_single_arm_is_itself(arm: ArmView, vs: Verdicts, target_label: Seq<char>)
    ensures
        attr_value(seq![arm], vs, target_label) == arm_value(arm, vs, target_label),
{
    let arms = seq![arm];
    if let Ok(v) = arm_value(arm, vs, target_label) {
        law_arms_with_values_have_them(arms, vs, target_label, seq![v]);
    } else {
        law_first_failing_arm_decides(
            arms,
            vs,
            target_label,
            0,
            arm_value(arm, vs, target_label)->Err_0,
        );
    }
}

/// Where every arm gives a list, the attribute is the list of the items of all arms, one arm after
/// the other.
pub proof fn law_lists_of_all_arms_are_concatenated(
    arms: Seq<ArmView>,
    vs: Verdicts,
    target_label: Seq<char>,
    lists: Seq<Seq<ValueView>>,
)
    requires
        lists.len() == arms.len(),
        forall|i: int|
            0 <= i < arms.len() ==> arm_value(#[trigger] arms[i], vs, target_label) == Ok::<
                ValueView,
                ErrorView,
            >(ValueView::List(lists[i])),
    ensures
        attr_value(arms, vs, target_label) == Ok::<ValueView, ErrorView>(
            ValueView::List(lists.flatten()),
        ),
{
    let values = lists.map_values(|l: Seq<ValueView>| ValueView::List(l));
    law_arms_with_values_have_them(arms, vs, target_label, values);
    lemma_lists_are_flattened(lists);
    if lists.len() == 1 {
        lists.lemma_flatten_one_element();
    }
}

/// The items of some lists, one list after the other, are their concatenation.
proof fn lemma_lists_are_flattened(lists: Seq<Seq<ValueView>>)
    ensures
        lists_joined(lists.map_values(|l: Seq<ValueView>| ValueView::List(l))) == lists.flatten(),
    decreases lists.len(),
{
    let f = |l: Seq<ValueView>| ValueView::List(l);
    if lists.len() > 0 {
        lemma_lists_are_flattened(lists.drop_last());
        assert(lists.map_values(f).drop_last() =~= lists.drop_last().map_values(f));
        lists.drop_last().lemma_flatten_push(lists.last());
        assert(lists =~= lists.drop_last().push(lists.last()));
    }
}

/// Where two arms or more all give dictionaries, the attribute is the dictionary that the pairs of
/// all arms make, one arm after the other.
pub proof fn law_pairs_of_all_arms_are_joined(
    arms: Seq<ArmView>,
    vs: Verdicts,
    target_label: Seq<char>,
    dicts: Seq<Seq<(ValueView, ValueView)>>,
)
    requires
        arms.len() > 1,
        dicts.len() == arms.len(),
        forall|i: int|
            0 <= i < arms.len() ==> arm_value(#[trigger] arms[i], vs, target_label) == Ok::<
                ValueView,
                ErrorView,
            >(ValueView::Dict(dicts[i])),
    ensures
        attr_value(arms, vs, target_label) == Ok::<ValueView, ErrorView>(
            ValueView::Dict(later_wins(dicts.flatten())),
        ),
{
    let values = dicts.map_values(|l: Seq<(ValueView, ValueView)>| ValueView::Dict(l));
    law_arms_with_values_have_them(arms, vs, target_label, values);
    lemma_dicts_are_flattened(dicts);
    assert(!(values[0] is List));
}

/// The pairs of some dictionaries, one dictionary after the other, are their concatenation.
proof fn lemma_dicts_are_flattened(dicts: Seq<Seq<(ValueView, ValueView)>>)
    ensures
        pairs_joined(dicts.map_values(|l: Seq<(ValueView, ValueView)>| ValueView::Dict(l)))
            == dicts.flatten(),
    decreases dicts.len(),
{
    let f = |l: Seq<(ValueView, ValueView)>| ValueView::Dict(l);
    if dicts.len() > 0 {
        lemma_dicts_are_flattened(dicts.drop_last());
        assert(dicts.map_values(f).drop_last() =~= dicts.drop_last().map_values(f));
        dicts.drop_last().lemma_flatten_push(dicts.last());
        assert(dicts =~= dicts.drop_last().push(dicts.last()));
    }
}

/// Nothing else can be joined: where one of several arms gives no list and one gives no dictionary,
/// the attribute fails.
pub proof fn law_other_arms_cannot_be_joined(
    arms: Seq<ArmView>,
    vs: Verdicts,
    target_label: Seq<char>,
    values: Seq<ValueView>,
    i: int,
    j: int,
)
    requires
        arms.len() > 1,
        values.len() == arms.len(),
        forall|k: int|
            0 <= k < arms.len() ==> arm_value(#[trigger] arms[k], vs, target_label) == Ok::<
                ValueView,
                ErrorView,
            >(values[k]),
        0 <= i < arms.len(),
        !(values[i] is List),
        0 <= j < arms.len(),
        !(values[j] is Dict),
    ensures
        attr_value(arms, vs, target_label) == Err::<ValueView, ErrorView>(
            ErrorView::Invalid {
                what: "select"@,
                detail: "configurable attribute of '"@ + target_label
                    + "' concatenates non-list/non-dict select arms (not joinable)"@,
            },
        ),
{
    law_arms_with_values_have_them(arms, vs, target_label, values);
    assert(!(values[i] is List));
    assert(!(values[j] is Dict));
}

/// A first pair counts only where no later one has its key; what comes later is not changed by it.
pub proof fn law_a_first_pair_yields_to_later_ones(
    x: (ValueView, ValueView),
    pairs: Seq<(ValueView, ValueView)>,
)
    ensures
        later_wins(Seq::empty()).len() == 0,
        (exists|j: int| 0 <= j < pairs.len() && (#[trigger] pairs[j]).0 == x.0) ==> later_wins(
            seq![x] + pairs,
        ) == later_wins(pairs),
        (forall|j: int| 0 <= j < pairs.len() ==> (#[trigger] pairs[j]).0 != x.0) ==> later_wins(
            seq![x] + pairs,
        ) == seq![x] + later_wins(pairs),
    decreases pairs.len(),
{
    if pairs.len() == 0 {
        assert(seq![x] + pairs =~= Seq::empty().push(x));
        lemma_later_wins_push(Seq::empty(), x);
        reveal(Seq::filter);
    } else {
        let before = pairs.drop_last();
        let last = pairs.last();
        let p = |q: (ValueView, ValueView)| q.0 != last.0;
        law_a_first_pair_yields_to_later_ones(x, before);
        assert(seq![x] + pairs =~= (seq![x] + before).push(last));
        assert(pairs =~= before.push(last));
        lemma_later_wins_push(seq![x] + before, last);
        lemma_later_wins_push(before, last);
        if exists|j: int| 0 <= j < before.len() && (#[trigger] before[j]).0 == x.0 {
            let j = choose|j: int| 0 <= j < before.len() && (#[trigger] before[j]).0 == x.0;
            assert(pairs[j] == before[j]);
        } else {
            Seq::filter_distributes_over_add(seq![x], later_wins(before), p);
            lemma_filter_of_one(x, p);
            assert(later_wins(seq![x] + before) == seq![x] + later_wins(before));
            assert(pairs[pairs.len() - 1] == last);
            if x.0 == last.0 {
                assert(later_wins(seq![x] + before).filter(p) =~= later_wins(before).filter(p));
            } else {
                assert forall|j: int| 0 <= j < pairs.len() implies (#[trigger] pairs[j]).0 != x.0 by {
                    if j < before.len() {
                        assert(before[j] == pairs[j]);
                    }
                }
                assert(later_wins(seq![x] + pairs) =~= seq![x] + later_wins(pairs));
            }
        }
    }
}

/// A filter keeps a single item, or nothing.
proof fn lemma_filter_of_one<A>(x: A, p: spec_fn(A) -> bool)
    ensures
        seq![x].filter(p) == (if p(x) {
            seq![x]
        } else {
            Seq::empty()
        }),
{
    reveal(Seq::filter);
    seqs::lemma_filter_push(Seq::empty(), p, x);
    assert(seq![x] =~= Seq::empty().push(x));
}

// ---- Laws of the choice ----

/// Whether a label is matched: it is not the default, and its condition was decided and holds.
pub open spec fn matched(label: Seq<char>, vs: Verdicts) -> bool {
    label != "//conditions:default"@ && vs.dom().contains(label) && vs[label].0
}

/// Whether a list of settings holds every one of another, and one that the other does not hold.
pub open spec fn outdoes(a: Seq<Seq<char>>, b: Seq<Seq<char>>) -> bool {
    &&& forall|s: Seq<char>| b.contains(s) ==> a.contains(s)
    &&& exists|s: Seq<char>| a.contains(s) && !b.contains(s)
}

/// Whether a branch is matched, and by settings that outdo those of every other branch that is.
pub open spec fn wins(conditions: Seq<(Seq<char>, ValueView)>, vs: Verdicts, i: int) -> bool {
    &&& 0 <= i < conditions.len()
    &&& matched(conditions[i].0, vs)
    &&& forall|j: int|
        0 <= j < conditions.len() && j != i && matched((#[trigger] conditions[j]).0, vs)
            ==> outdoes(vs[conditions[i].0].1, vs[conditions[j].0].1)
}

/// A branch prevails where it wins.
proof fn lemma_wins(conditions: Seq<(Seq<char>, ValueView)>, vs: Verdicts)
    ensures
        forall|l: Seq<char>| #[trigger] matched(l, vs) == holds(l, vs),
        forall|i: int| #[trigger] wins(conditions, vs, i) == prevails(conditions, vs, i),
{
    assert forall|i: int| #[trigger] wins(conditions, vs, i) == prevails(conditions, vs, i) by {
        assert forall|j: int| 0 <= j < conditions.len() implies outdoes(
            vs[conditions[i].0].1,
            vs[(#[trigger] conditions[j]).0].1,
        ) == more_specific(settings(conditions[i].0, vs), settings(conditions[j].0, vs)) by {
            lemma_outdoes(vs[conditions[i].0].1, vs[conditions[j].0].1);
        }
    }
}

/// Settings that outdo others make the more specific set.
proof fn lemma_outdoes(a: Seq<Seq<char>>, b: Seq<Seq<char>>)
    ensures
        outdoes(a, b) == more_specific(a.to_set(), b.to_set()),
{
    let (x, y) = (a.to_set(), b.to_set());
    assert(forall|s: Seq<char>| x.contains(s) == a.contains(s));
    assert(forall|s: Seq<char>| y.contains(s) == b.contains(s));
    if outdoes(a, b) {
        let s = choose|s: Seq<char>| a.contains(s) && !b.contains(s);
        assert(x.contains(s) && !y.contains(s));
        assert(y.subset_of(x));
    }
    if more_specific(x, y) {
        if forall|s: Seq<char>| a.contains(s) ==> b.contains(s) {
            assert(x =~= y);
        }
    }
}

/// The branch whose settings hold those of every other branch that is matched, and more, gives the
/// value; a branch that is matched alone needs no comparison.
pub proof fn law_settings_decide_between_matches(
    conditions: Seq<(Seq<char>, ValueView)>,
    no_match_error: Seq<char>,
    vs: Verdicts,
    target_label: Seq<char>,
    i: int,
)
    requires
        wins(conditions, vs, i),
    ensures
        branch_value(conditions, no_match_error, vs, target_label) == Ok::<ValueView, ErrorView>(
            conditions[i].1,
        ),
{
    lemma_wins(conditions, vs);
    law_most_specific_wins(conditions, no_match_error, vs, target_label, i);
}

/// Where branches are matched and none outdoes all others, the choice is ambiguous: the failure names
/// the target and the conditions that are matched, in order.
pub proof fn law_ambiguous_matches_fail(
    conditions: Seq<(Seq<char>, ValueView)>,
    no_match_error: Seq<char>,
    vs: Verdicts,
    target_label: Seq<char>,
    i: int,
)
    requires
        0 <= i < conditions.len(),
        matched(conditions[i].0, vs),
        forall|k: int| !wins(conditions, vs, k),
    ensures
        branch_value(conditions, no_match_error, vs, target_label) == Err::<ValueView, ErrorView>(
            ErrorView::Invalid {
                what: "select"@,
                detail: "configurable attribute of '"@ + target_label
                    + "' matches multiple conditions with no most-specific resolution (ambiguous): "@
                    + outside::listed(
                    conditions.filter(|c: (Seq<char>, ValueView)| matched(c.0, vs)).map_values(
                        |c: (Seq<char>, ValueView)| c.0,
                    ),
                ),
            },
        ),
{
    let p = |c: (Seq<char>, ValueView)| holds(c.0, vs);
    let q = |c: (Seq<char>, ValueView)| matched(c.0, vs);
    let m = matching(conditions, vs);
    lemma_wins(conditions, vs);
    lemma_prevails(conditions, vs);
    assert(p =~= q);
    assert(holds(conditions[i].0, vs));
    if exists|k: int| stands_out(entries(m, vs), k) {
        let k = choose|k: int| stands_out(entries(m, vs), k);
        let j = choose|j: int| prevails(conditions, vs, j) && m[k] == conditions[j];
        assert(!wins(conditions, vs, j));
    }
}

/// Where no branch is matched, the first default gives the value. Without a default the choice fails,
/// with the message of the branch where it has one, else with one that names the target and the
/// conditions, in order.
pub proof fn law_unmatched_branches_take_the_default(
    conditions: Seq<(Seq<char>, ValueView)>,
    no_match_error: Seq<char>,
    vs: Verdicts,
    target_label: Seq<char>,
    i: int,
)
    requires
        forall|k: int| 0 <= k < conditions.len() ==> !matched((#[trigger] conditions[k]).0, vs),
    ensures
        0 <= i < conditions.len() && conditions[i].0 == "//conditions:default"@ && (forall|k: int|
            0 <= k < i ==> (#[trigger] conditions[k]).0 != "//conditions:default"@) ==> branch_value(
            conditions,
            no_match_error,
            vs,
            target_label,
        ) == Ok::<ValueView, ErrorView>(conditions[i].1),
        (forall|k: int|
            0 <= k < conditions.len() ==> (#[trigger] conditions[k]).0 != "//conditions:default"@)
            ==> branch_value(conditions, no_match_error, vs, target_label) == Err::<
            ValueView,
            ErrorView,
        >(
            ErrorView::Invalid {
                what: "select"@,
                detail: if no_match_error.len() > 0 {
                    no_match_error
                } else {
                    "configurable attribute of '"@ + target_label
                        + "' has no matching condition and no //conditions:default (conditions: "@
                        + outside::listed(
                        conditions.map_values(|c: (Seq<char>, ValueView)| c.0),
                    ) + ")"@
                },
            },
        ),
{
    lemma_wins(conditions, vs);
    assert forall|k: int| 0 <= k < conditions.len() implies !holds(
        (#[trigger] conditions[k]).0,
        vs,
    ) by {
        assert(!matched(conditions[k].0, vs));
    }
    law_default_is_the_last_resort(conditions, no_match_error, vs, target_label);
    value::lemma_lookup(conditions, "//conditions:default"@);
    if forall|k: int|
        0 <= k < conditions.len() ==> (#[trigger] conditions[k]).0 != "//conditions:default"@ {
        let p = |c: (Seq<char>, ValueView)| names_target(c.0);
        lemma_filter_of_all(conditions, p);
    }
}

/// A filter that every item satisfies keeps all of them.
proof fn lemma_filter_of_all<A>(s: Seq<A>, p: spec_fn(A) -> bool)
    requires
        forall|i: int| 0 <= i < s.len() ==> p(#[trigger] s[i]),
    ensures
        s.filter(p) == s,
    decreases s.len(),
{
    reveal(Seq::filter);
    if s.len() > 0 {
        lemma_filter_of_all(s.drop_last(), p);
        assert(p(s[s.len() - 1]));
        assert(s =~= s.drop_last().push(s.last()));
    } else {
        assert(s.filter(p) =~= s);
    }
}

/// The value that is chosen of some entries is that of one which holds every setting of each other,
/// and one more; where there is none, nothing is chosen.
pub proof fn law_chosen_entries_hold_all_settings(es: Seq<Entry>, i: int)
    ensures
        0 <= i < es.len() && (forall|j: int|
            0 <= j < es.len() && j != i ==> holds_all_and_more(
                es[i].settings,
                (#[trigger] es[j]).settings,
            )) ==> chosen(es) == Some(es[i].value),
        chosen(es) matches Some(v) ==> exists|k: int|
            0 <= k < es.len() && (#[trigger] es[k]).value == v && forall|j: int|
                0 <= j < es.len() && j != k ==> holds_all_and_more(
                    es[k].settings,
                    (#[trigger] es[j]).settings,
                ),
{
    assert forall|a: Set<Seq<char>>, b: Set<Seq<char>>| #[trigger]
        holds_all_and_more(a, b) == more_specific(a, b) by {
        if b.subset_of(a) && forall|s: Seq<char>| a.contains(s) ==> b.contains(s) {
            assert(a =~= b);
        }
    }
    if 0 <= i < es.len() && forall|j: int|
        0 <= j < es.len() && j != i ==> holds_all_and_more(
            es[i].settings,
            (#[trigger] es[j]).settings,
        ) {
        assert(stands_out(es, i));
        law_chosen_stands_out(es, i);
    }
    if let Some(v) = chosen(es) {
        let k = choose|k: int| stands_out(es, k);
        assert(es[k].value == v);
        assert forall|j: int| 0 <= j < es.len() && j != k implies holds_all_and_more(
            es[k].settings,
            (#[trigger] es[j]).settings,
        ) by {
            assert(more_specific(es[k].settings, es[j].settings));
        }
    }
}

/// Whether a set holds every setting of another, and one that the other does not hold.
pub open spec fn holds_all_and_more(a: Set<Seq<char>>, b: Set<Seq<char>>) -> bool {
    &&& forall|s: Seq<char>| b.contains(s) ==> a.contains(s)
    &&& exists|s: Seq<char>| a.contains(s) && !b.contains(s)
}

/// The models of branches and of matches hold what the branches and the matches hold, each at its
/// place.
pub proof fn law_models_hold_every_match(
    found: Seq<(&String, &BzlValue, &Vec<String>)>,
    m: Map<Seq<char>, (bool, Vec<String>)>,
    label: Seq<char>,
)
    ensures
        entries_view(found).len() == found.len(),
        forall|i: int|
            0 <= i < found.len() ==> (#[trigger] entries_view(found)[i]).label == found[i].0@
                && entries_view(found)[i].value == found[i].1@ && entries_view(found)[i].settings
                == text::texts(found[i].2@).to_set(),
        verdicts(m).dom().contains(label) <==> m.dom().contains(label),
        m.dom().contains(label) ==> verdicts(m)[label].0 == m[label].0 && verdicts(m)[label].1
            == text::texts(m[label].1@),
{
}

/// The attribute of concrete arms that all are lists is the list of all their items, in order.
pub proof fn law_concrete_lists_are_concatenated(
    arms: &[SelectArm],
    matches: StringMap<(bool, Vec<String>)>,
    target_label: &str,
    r: Result<BzlValue, Error>,
    lists: Seq<Seq<ValueView>>,
)
    requires
        call_ensures(resolve_select_attr, (arms, &matches, target_label), r),
        lists.len() == arms@.len(),
        forall|i: int|
            0 <= i < arms@.len() ==> (#[trigger] arms@[i])@ == ArmView::Concrete(
                ValueView::List(lists[i]),
            ),
    ensures
        r matches Ok(v) && v@ == ValueView::List(lists.flatten()),
{
    let all = value::arms_view(arms@);
    assert forall|i: int| 0 <= i < all.len() implies arm_value(
        #[trigger] all[i],
        verdicts(matches@),
        target_label@,
    ) == Ok::<ValueView, ErrorView>(ValueView::List(lists[i])) by {
        assert(all[i] == arms@[i]@);
    }
    law_lists_of_all_arms_are_concatenated(all, verdicts(matches@), target_label@, lists);
}

} // verus!
