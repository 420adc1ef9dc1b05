//! The values that targets and rules are written in.

use vstd::prelude::*;
use crate::seqs;
use crate::text::{self, copy_texts, same_text, same_texts};
use crate::wire::copy_bytes;

verus! {

/// How an attribute of a rule is typed.
#[derive(Clone, Copy, PartialEq, Eq, Structural, Debug)]
pub enum AttrType {
    /// The attribute names other targets.
    Label,
    /// The attribute holds plain data.
    Plain,
}

impl AttrType {
    /// Whether the attribute names other targets.
    pub fn is_label(&self) -> (r: bool)
        ensures
            r == (*self is Label),
    {
        match self {
            AttrType::Label => true,
            AttrType::Plain => false,
        }
    }
}

/// What a rule declares of itself: its attributes and the toolchain types it requires.
#[derive(PartialEq, Eq, Debug)]
pub struct RuleDef {
    pub attrs: Vec<(String, AttrType)>,
    pub toolchains: Vec<String>,
}

/// A value of the build language.
#[derive(PartialEq, Eq, Debug)]
pub enum BzlValue {
    Bool(bool),
    Str(String),
    List(Vec<BzlValue>),
    /// Key and value pairs, in order.
    Dict(Vec<(BzlValue, BzlValue)>),
    /// A value that is not settled yet: the join of its arms.
    Select(Vec<SelectArm>),
    Rule(RuleDef),
    /// Any other value, by its canonical encoding. The analysis only carries and compares it.
    Other(Vec<u8>),
}

/// One arm of a selectable value.
#[derive(PartialEq, Eq, Debug)]
pub enum SelectArm {
    /// An arm that is a plain value.
    Concrete(BzlValue),
    /// A choice between values by condition label, with the message for the case that none matches
    /// (empty where none was given).
    Branch { conditions: Vec<(String, BzlValue)>, no_match_error: String },
}

// ---- Models ----

/// The model of a [`RuleDef`].
pub struct RuleView {
    pub attrs: Seq<(Seq<char>, AttrType)>,
    pub toolchains: Seq<Seq<char>>,
}

/// The model of a [`BzlValue`].
pub enum ValueView {
    Bool(bool),
    Str(Seq<char>),
    List(Seq<ValueView>),
    Dict(Seq<(ValueView, ValueView)>),
    Select(Seq<ArmView>),
    Rule(RuleView),
    Other(Seq<u8>),
}

/// The model of a [`SelectArm`].
pub enum ArmView {
    Concrete(ValueView),
    Branch { conditions: Seq<(Seq<char>, ValueView)>, no_match_error: Seq<char> },
}

impl View for RuleDef {
    type V = RuleView;

    open spec fn view(&self) -> RuleView {
        RuleView {
            attrs: self.attrs@.map_values(|a: (String, AttrType)| (a.0@, a.1)),
            toolchains: text::texts(self.toolchains@),
        }
    }
}

/// The model of a value.
pub open spec fn value_view(v: BzlValue) -> ValueView
    decreases v,
{
    match v {
        BzlValue::Bool(b) => ValueView::Bool(b),
        BzlValue::Str(s) => ValueView::Str(s@),
        BzlValue::List(items) => ValueView::List(
            Seq::new(
                items@.len(),
                |i: int|
                    if 0 <= i < items@.len() {
                        value_view(items@[i])
                    } else {
                        arbitrary()
                    },
            ),
        ),
        BzlValue::Dict(pairs) => ValueView::Dict(
            Seq::new(
                pairs@.len(),
                |i: int|
                    if 0 <= i < pairs@.len() {
                        (value_view(pairs@[i].0), value_view(pairs@[i].1))
                    } else {
                        arbitrary()
                    },
            ),
        ),
        BzlValue::Select(arms) => ValueView::Select(
            Seq::new(
                arms@.len(),
                |i: int|
                    if 0 <= i < arms@.len() {
                        arm_view(arms@[i])
                    } else {
                        arbitrary()
                    },
            ),
        ),
        BzlValue::Rule(r) => ValueView::Rule(r@),
        BzlValue::Other(b) => ValueView::Other(b@),
    }
}

/// The model of an arm.
pub open spec fn arm_view(a: SelectArm) -> ArmView
    decreases a,
{
    match a {
        SelectArm::Concrete(v) => ArmView::Concrete(value_view(v)),
        SelectArm::Branch { conditions, no_match_error } => ArmView::Branch {
            conditions: Seq::new(
                conditions@.len(),
                |i: int|
                    if 0 <= i < conditions@.len() {
                        (conditions@[i].0@, value_view(conditions@[i].1))
                    } else {
                        arbitrary()
                    },
            ),
            no_match_error: no_match_error@,
        },
    }
}

impl View for BzlValue {
    type V = ValueView;

    open spec fn view(&self) -> ValueView {
        value_view(*self)
    }
}

impl View for SelectArm {
    type V = ArmView;

    open spec fn view(&self) -> ArmView {
        arm_view(*self)
    }
}

/// The models of a list of values.
pub open spec fn values_view(items: Seq<BzlValue>) -> Seq<ValueView> {
    items.map_values(|v: BzlValue| v@)
}

/// The models of a list of pairs.
pub open spec fn pairs_view(pairs: Seq<(BzlValue, BzlValue)>) -> Seq<(ValueView, ValueView)> {
    pairs.map_values(|p: (BzlValue, BzlValue)| (p.0@, p.1@))
}

/// The models of a list of arms.
pub open spec fn arms_view(arms: Seq<SelectArm>) -> Seq<ArmView> {
    arms.map_values(|a: SelectArm| a@)
}

/// The models of a list of named values.
pub open spec fn named_view(entries: Seq<(String, BzlValue)>) -> Seq<(Seq<char>, ValueView)> {
    entries.map_values(|e: (String, BzlValue)| (e.0@, e.1@))
}

/// The model of a value that is made of others is made of their models.
pub proof fn lemma_value_view(v: BzlValue)
    ensures
        v@ == (match v {
            BzlValue::Bool(b) => ValueView::Bool(b),
            BzlValue::Str(s) => ValueView::Str(s@),
            BzlValue::List(items) => ValueView::List(values_view(items@)),
            BzlValue::Dict(pairs) => ValueView::Dict(pairs_view(pairs@)),
            BzlValue::Select(arms) => ValueView::Select(arms_view(arms@)),
            BzlValue::Rule(r) => ValueView::Rule(r@),
            BzlValue::Other(b) => ValueView::Other(b@),
        }),
{
    match v {
        BzlValue::List(items) => {
            assert(v@->List_0 =~= values_view(items@));
        },
        BzlValue::Dict(pairs) => {
            assert(v@->Dict_0 =~= pairs_view(pairs@));
        },
        BzlValue::Select(arms) => {
            assert(v@->Select_0 =~= arms_view(arms@));
        },
        _ => {},
    }
}

/// The model of an arm is made of the models of its values.
pub proof fn lemma_arm_view(a: SelectArm)
    ensures
        a@ == (match a {
            SelectArm::Concrete(v) => ArmView::Concrete(v@),
            SelectArm::Branch { conditions, no_match_error } => ArmView::Branch {
                conditions: named_view(conditions@),
                no_match_error: no_match_error@,
            },
        }),
{
    if let SelectArm::Branch { conditions, no_match_error } = a {
        assert(a@->conditions =~= named_view(conditions@));
    }
}

// ---- Copies ----

impl Clone for RuleDef {
    fn clone(&self) -> (r: Self)
        ensures
            r@ == self@,
    {
        let mut attrs: Vec<(String, AttrType)> = Vec::new();
        for i in 0..self.attrs.len()
            invariant
                attrs@ == self.attrs@.take(i as int),
        {
            attrs.push((self.attrs[i].0.clone(), self.attrs[i].1));
            assert(attrs@ =~= self.attrs@.take(i + 1));
        }
        assert(attrs@ =~= self.attrs@);
        RuleDef { attrs, toolchains: copy_texts(&self.toolchains) }
    }
}

/// A copy of a value.
fn copy_value(v: &BzlValue) -> (r: BzlValue)
    ensures
        r@ == v@,
    decreases v,
{
    proof {
        lemma_value_view(*v);
    }
    let r = match v {
        BzlValue::Bool(b) => BzlValue::Bool(*b),
        BzlValue::Str(s) => BzlValue::Str(s.clone()),
        BzlValue::List(items) => {
            assert(decreases_to!(*v => v->List_0));
            BzlValue::List(copy_values(items))
        },
        BzlValue::Dict(pairs) => {
            assert(decreases_to!(*v => v->Dict_0));
            BzlValue::Dict(copy_pairs(pairs))
        },
        BzlValue::Select(arms) => {
            assert(decreases_to!(*v => v->Select_0));
            BzlValue::Select(copy_arms(arms))
        },
        BzlValue::Rule(rule) => BzlValue::Rule(rule.clone()),
        BzlValue::Other(b) => BzlValue::Other(copy_bytes(b)),
    };
    proof {
        lemma_value_view(r);
    }
    r
}

/// A copy of a list of values.
pub fn copy_values(items: &Vec<BzlValue>) -> (r: Vec<BzlValue>)
    ensures
        values_view(r@) == values_view(items@),
    decreases items,
{
    let mut r: Vec<BzlValue> = Vec::new();
    for i in 0..items.len()
        invariant
            r@.len() == i,
            forall|j: int| 0 <= j < i ==> (#[trigger] r@[j])@ == items@[j]@,
    {
        assert(decreases_to!(*items => items@[i as int]));
        r.push(copy_value(&items[i]));
    }
    assert(values_view(r@) =~= values_view(items@));
    r
}

/// A copy of a list of pairs.
fn copy_pairs(pairs: &Vec<(BzlValue, BzlValue)>) -> (r: Vec<(BzlValue, BzlValue)>)
    ensures
        pairs_view(r@) == pairs_view(pairs@),
    decreases pairs,
{
    let mut r: Vec<(BzlValue, BzlValue)> = Vec::new();
    for i in 0..pairs.len()
        invariant
            r@.len() == i,
            forall|j: int|
                0 <= j < i ==> (#[trigger] r@[j]).0@ == pairs@[j].0@ && r@[j].1@ == pairs@[j].1@,
    {
        assert(decreases_to!(*pairs => pairs@[i as int]));
        assert(decreases_to!(*pairs => pairs@[i as int].0));
        assert(decreases_to!(*pairs => pairs@[i as int].1));
        r.push((copy_value(&pairs[i].0), copy_value(&pairs[i].1)));
    }
    assert(pairs_view(r@) =~= pairs_view(pairs@));
    r
}

/// A copy of a list of arms.
fn copy_arms(arms: &Vec<SelectArm>) -> (r: Vec<SelectArm>)
    ensures
        arms_view(r@) == arms_view(arms@),
    decreases arms,
{
    let mut r: Vec<SelectArm> = Vec::new();
    for i in 0..arms.len()
        invariant
            r@.len() == i,
            forall|j: int| 0 <= j < i ==> (#[trigger] r@[j])@ == arms@[j]@,
    {
        assert(decreases_to!(*arms => arms@[i as int]));
        r.push(copy_arm(&arms[i]));
    }
    assert(arms_view(r@) =~= arms_view(arms@));
    r
}

/// A copy of an arm.
fn copy_arm(a: &SelectArm) -> (r: SelectArm)
    ensures
        r@ == a@,
    decreases a,
{
    proof {
        lemma_arm_view(*a);
    }
    let r = match a {
        SelectArm::Concrete(v) => {
            assert(decreases_to!(*a => a->Concrete_0));
            SelectArm::Concrete(copy_value(v))
        },
        SelectArm::Branch { conditions, no_match_error } => {
            assert(decreases_to!(*a => a->conditions));
            SelectArm::Branch {
                conditions: copy_named(conditions),
                no_match_error: no_match_error.clone(),
            }
        },
    };
    proof {
        lemma_arm_view(r);
    }
    r
}

/// A copy of a list of named values.
pub fn copy_named(entries: &Vec<(String, BzlValue)>) -> (r: Vec<(String, BzlValue)>)
    ensures
        named_view(r@) == named_view(entries@),
    decreases entries,
{
    let mut r: Vec<(String, BzlValue)> = Vec::new();
    for i in 0..entries.len()
        invariant
            r@.len() == i,
            forall|j: int|
                0 <= j < i ==> (#[trigger] r@[j]).0@ == entries@[j].0@ && r@[j].1@
                    == entries@[j].1@,
    {
        assert(decreases_to!(*entries => entries@[i as int]));
        assert(decreases_to!(*entries => entries@[i as int].1));
        r.push((entries[i].0.clone(), copy_value(&entries[i].1)));
    }
    assert(named_view(r@) =~= named_view(entries@));
    r
}

impl Clone for BzlValue {
    fn clone(&self) -> (r: Self)
        ensures
            r@ == self@,
    {
        copy_value(self)
    }
}

impl Clone for SelectArm {
    fn clone(&self) -> (r: Self)
        ensures
            r@ == self@,
    {
        copy_arm(self)
    }
}

// ---- Comparison ----

/// Whether two lists of bytes are equal.
fn same_bytes(a: &Vec<u8>, b: &Vec<u8>) -> (r: bool)
    ensures
        r == (a@ == b@),
{
    if a.len() != b.len() {
        return false;
    }
    for i in 0..a.len()
        invariant
            a@.len() == b@.len(),
            forall|j: int| 0 <= j < i ==> a@[j] == b@[j],
    {
        if a[i] != b[i] {
            return false;
        }
    }
    assert(a@ =~= b@);
    true
}

/// Whether two rule declarations are equal.
fn same_rule(a: &RuleDef, b: &RuleDef) -> (r: bool)
    ensures
        r == (a@ == b@),
{
    if !same_texts(&a.toolchains, &b.toolchains) {
        return false;
    }
    if a.attrs.len() != b.attrs.len() {
        assert(a@.attrs.len() != b@.attrs.len());
        return false;
    }
    for i in 0..a.attrs.len()
        invariant
            a.attrs@.len() == b.attrs@.len(),
            forall|j: int|
                0 <= j < i ==> (#[trigger] a.attrs@[j]).0@ == b.attrs@[j].0@ && a.attrs@[j].1
                    == b.attrs@[j].1,
    {
        if !same_text(&a.attrs[i].0, &b.attrs[i].0) || a.attrs[i].1 != b.attrs[i].1 {
            assert(a@.attrs[i as int] != b@.attrs[i as int]);
            return false;
        }
    }
    assert(a@.attrs =~= b@.attrs);
    true
}

/// Whether two values are equal.
pub fn same_value(a: &BzlValue, b: &BzlValue) -> (r: bool)
    ensures
        r == (a@ == b@),
    decreases a,
{
    proof {
        lemma_value_view(*a);
        lemma_value_view(*b);
    }
    match (a, b) {
        (BzlValue::Bool(x), BzlValue::Bool(y)) => *x == *y,
        (BzlValue::Str(x), BzlValue::Str(y)) => same_text(x, y),
        (BzlValue::List(x), BzlValue::List(y)) => {
            assert(decreases_to!(*a => a->List_0));
            same_values(x, y)
        },
        (BzlValue::Dict(x), BzlValue::Dict(y)) => {
            assert(decreases_to!(*a => a->Dict_0));
            same_pairs(x, y)
        },
        (BzlValue::Select(x), BzlValue::Select(y)) => {
            assert(decreases_to!(*a => a->Select_0));
            same_arms(x, y)
        },
        (BzlValue::Rule(x), BzlValue::Rule(y)) => same_rule(x, y),
        (BzlValue::Other(x), BzlValue::Other(y)) => same_bytes(x, y),
        _ => false,
    }
}

/// Whether two lists of values are equal.
fn same_values(a: &Vec<BzlValue>, b: &Vec<BzlValue>) -> (r: bool)
    ensures
        r == (values_view(a@) == values_view(b@)),
    decreases a,
{
    if a.len() != b.len() {
        assert(values_view(a@).len() != values_view(b@).len());
        return false;
    }
    for i in 0..a.len()
        invariant
            a@.len() == b@.len(),
            forall|j: int| 0 <= j < i ==> (#[trigger] a@[j])@ == b@[j]@,
    {
        assert(decreases_to!(*a => a@[i as int]));
        if !same_value(&a[i], &b[i]) {
            assert(values_view(a@)[i as int] != values_view(b@)[i as int]);
            return false;
        }
    }
    assert(values_view(a@) =~= values_view(b@));
    true
}

/// Whether two lists of pairs are equal.
fn same_pairs(a: &Vec<(BzlValue, BzlValue)>, b: &Vec<(BzlValue, BzlValue)>) -> (r: bool)
    ensures
        r == (pairs_view(a@) == pairs_view(b@)),
    decreases a,
{
    if a.len() != b.len() {
        assert(pairs_view(a@).len() != pairs_view(b@).len());
        return false;
    }
    for i in 0..a.len()
        invariant
            a@.len() == b@.len(),
            forall|j: int|
                0 <= j < i ==> (#[trigger] a@[j]).0@ == b@[j].0@ && a@[j].1@ == b@[j].1@,
    {
        assert(decreases_to!(*a => a@[i as int]));
        assert(decreases_to!(*a => a@[i as int].0));
        assert(decreases_to!(*a => a@[i as int].1));
        if !same_value(&a[i].0, &b[i].0) || !same_value(&a[i].1, &b[i].1) {
            assert(pairs_view(a@)[i as int] != pairs_view(b@)[i as int]);
            return false;
        }
    }
    assert(pairs_view(a@) =~= pairs_view(b@));
    true
}

/// Whether two lists of arms are equal.
fn same_arms(a: &Vec<SelectArm>, b: &Vec<SelectArm>) -> (r: bool)
    ensures
        r == (arms_view(a@) == arms_view(b@)),
    decreases a,
{
    if a.len() != b.len() {
        assert(arms_view(a@).len() != arms_view(b@).len());
        return false;
    }
    for i in 0..a.len()
        invariant
            a@.len() == b@.len(),
            forall|j: int| 0 <= j < i ==> (#[trigger] a@[j])@ == b@[j]@,
    {
        assert(decreases_to!(*a => a@[i as int]));
        if !same_arm(&a[i], &b[i]) {
            assert(arms_view(a@)[i as int] != arms_view(b@)[i as int]);
            return false;
        }
    }
    assert(arms_view(a@) =~= arms_view(b@));
    true
}

/// Whether two arms are equal.
fn same_arm(a: &SelectArm, b: &SelectArm) -> (r: bool)
    ensures
        r == (a@ == b@),
    decreases a,
{
    proof {
        lemma_arm_view(*a);
        lemma_arm_view(*b);
    }
    match (a, b) {
        (SelectArm::Concrete(x), SelectArm::Concrete(y)) => {
            assert(decreases_to!(*a => a->Concrete_0));
            same_value(x, y)
        },
        (
            SelectArm::Branch { conditions: x, no_match_error: m },
            SelectArm::Branch { conditions: y, no_match_error: n },
        ) => {
            assert(decreases_to!(*a => a->conditions));
            same_named(x, y) && same_text(m, n)
        },
        _ => false,
    }
}

/// Whether two lists of named values are equal.
pub fn same_named(a: &Vec<(String, BzlValue)>, b: &Vec<(String, BzlValue)>) -> (r: bool)
    ensures
        r == (named_view(a@) == named_view(b@)),
    decreases a,
{
    if a.len() != b.len() {
        assert(named_view(a@).len() != named_view(b@).len());
        return false;
    }
    for i in 0..a.len()
        invariant
            a@.len() == b@.len(),
            forall|j: int|
                0 <= j < i ==> (#[trigger] a@[j]).0@ == b@[j].0@ && a@[j].1@ == b@[j].1@,
    {
        assert(decreases_to!(*a => a@[i as int]));
        assert(decreases_to!(*a => a@[i as int].1));
        if !same_text(&a[i].0, &b[i].0) || !same_value(&a[i].1, &b[i].1) {
            assert(named_view(a@)[i as int] != named_view(b@)[i as int]);
            return false;
        }
    }
    assert(named_view(a@) =~= named_view(b@));
    true
}

// ---- Lookup and extraction ----

/// The entries of the given name.
pub open spec fn named<V>(name: Seq<char>) -> spec_fn((Seq<char>, V)) -> bool {
    |e: (Seq<char>, V)| e.0 == name
}

/// What `entries` hold under `name`: the first where there is more than one.
pub open spec fn lookup<V>(entries: Seq<(Seq<char>, V)>, name: Seq<char>) -> Option<V> {
    match seqs::first(entries, named(name)) {
        Some(e) => Some(e.1),
        None => None,
    }
}

/// A lookup that finds something finds the first entry of the name; it finds nothing only where
/// there is no entry of the name.
pub proof fn lemma_lookup<V>(entries: Seq<(Seq<char>, V)>, name: Seq<char>)
    ensures
        lookup(entries, name) is Some ==> exists|i: int|
            0 <= i < entries.len() && (#[trigger] entries[i]).0 == name && lookup(entries, name)
                == Some(entries[i].1),
        forall|i: int|
            0 <= i < entries.len() && (#[trigger] entries[i]).0 == name && (forall|j: int|
                0 <= j < i ==> (#[trigger] entries[j]).0 != name) ==> lookup(entries, name) == Some(
                entries[i].1,
            ),
        lookup(entries, name) is None ==> forall|i: int|
            0 <= i < entries.len() ==> (#[trigger] entries[i]).0 != name,
{
    let p = named::<V>(name);
    if seqs::first(entries, p) is Some {
        let i = choose|i: int| seqs::first_where(entries, p, i);
        assert(seqs::first_where(entries, p, i));
        seqs::lemma_first_at(entries, p, i);
        assert(entries[i].0 == name);
    } else {
        assert forall|i: int| 0 <= i < entries.len() implies (#[trigger] entries[i]).0 != name by {
            if p(entries[i]) {
                seqs::lemma_first_exists(entries, p, i);
            }
        }
    }
    assert forall|i: int|
        0 <= i < entries.len() && (#[trigger] entries[i]).0 == name && (forall|j: int|
            0 <= j < i ==> (#[trigger] entries[j]).0 != name) implies lookup(entries, name) == Some(
        entries[i].1,
    ) by {
        assert(seqs::first_where(entries, p, i));
        seqs::lemma_first_at(entries, p, i);
    }
}

/// The texts among some values, in order.
pub open spec fn texts_among(items: Seq<ValueView>) -> Seq<Seq<char>> {
    items.filter(|v: ValueView| v is Str).map_values(|v: ValueView| v->Str_0)
}

/// The pairs of texts among some pairs, in order.
pub open spec fn text_pairs_among(pairs: Seq<(ValueView, ValueView)>) -> Seq<
    (Seq<char>, Seq<char>),
> {
    pairs.filter(|p: (ValueView, ValueView)| p.0 is Str && p.1 is Str).map_values(
        |p: (ValueView, ValueView)| (p.0->Str_0, p.1->Str_0),
    )
}

/// A further value adds its text, where it is one.
proof fn lemma_texts_among_push(items: Seq<ValueView>, v: ValueView)
    ensures
        texts_among(items.push(v)) == (if v is Str {
            texts_among(items).push(v->Str_0)
        } else {
            texts_among(items)
        }),
{
    seqs::lemma_filter_push(items, |v: ValueView| v is Str, v);
    if v is Str {
        assert(texts_among(items.push(v)) =~= texts_among(items).push(v->Str_0));
    }
}

/// A further pair adds its texts, where both its sides are texts.
proof fn lemma_text_pairs_among_push(pairs: Seq<(ValueView, ValueView)>, p: (ValueView, ValueView))
    ensures
        text_pairs_among(pairs.push(p)) == (if p.0 is Str && p.1 is Str {
            text_pairs_among(pairs).push((p.0->Str_0, p.1->Str_0))
        } else {
            text_pairs_among(pairs)
        }),
{
    seqs::lemma_filter_push(pairs, |p: (ValueView, ValueView)| p.0 is Str && p.1 is Str, p);
    if p.0 is Str && p.1 is Str {
        assert(text_pairs_among(pairs.push(p)) =~= text_pairs_among(pairs).push(
            (p.0->Str_0, p.1->Str_0),
        ));
    }
}

/// The value that `entries` hold under `name`.
pub fn find_named<'a>(entries: &'a Vec<(String, BzlValue)>, name: &str) -> (r: Option<&'a BzlValue>)
    ensures
        match r {
            Some(v) => lookup(named_view(entries@), name@) == Some(v@),
            None => lookup(named_view(entries@), name@) is None,
        },
{
    for i in 0..entries.len()
        invariant
            forall|j: int| 0 <= j < i ==> (#[trigger] entries@[j]).0@ != name@,
    {
        if same_text(&entries[i].0, name) {
            proof {
                let p = named::<ValueView>(name@);
                assert(seqs::first_where(named_view(entries@), p, i as int));
                seqs::lemma_first_at(named_view(entries@), p, i as int);
            }
            return Some(&entries[i].1);
        }
    }
    assert(forall|j: int|
        0 <= j < entries@.len() ==> (#[trigger] named_view(entries@)[j]).0 == entries@[j].0@);
    None
}

/// The strings among some values, in order.
pub fn strings_among(items: &Vec<BzlValue>) -> (r: Vec<String>)
    ensures
        text::texts(r@) == texts_among(values_view(items@)),
{
    let ghost all = values_view(items@);
    let mut r: Vec<String> = Vec::new();
    assert(text::texts(r@) =~= texts_among(all.take(0)));
    for i in 0..items.len()
        invariant
            all == values_view(items@),
            text::texts(r@) == texts_among(all.take(i as int)),
    {
        proof {
            lemma_value_view(items@[i as int]);
            lemma_texts_among_push(all.take(i as int), all[i as int]);
            assert(all.take(i + 1) =~= all.take(i as int).push(all[i as int]));
        }
        if let BzlValue::Str(s) = &items[i] {
            r.push(s.clone());
        }
        assert(text::texts(r@) =~= texts_among(all.take(i + 1)));
    }
    assert(all.take(items@.len() as int) =~= all);
    r
}

/// The pairs of strings among some pairs, in order.
pub fn string_pairs_among(pairs: &Vec<(BzlValue, BzlValue)>) -> (r: Vec<(String, String)>)
    ensures
        text_pairs(r@) == text_pairs_among(pairs_view(pairs@)),
{
    let ghost all = pairs_view(pairs@);
    let mut r: Vec<(String, String)> = Vec::new();
    assert(text_pairs(r@) =~= text_pairs_among(all.take(0)));
    for i in 0..pairs.len()
        invariant
            all == pairs_view(pairs@),
            text_pairs(r@) == text_pairs_among(all.take(i as int)),
    {
        proof {
            lemma_value_view(pairs@[i as int].0);
            lemma_value_view(pairs@[i as int].1);
            lemma_text_pairs_among_push(all.take(i as int), all[i as int]);
            assert(all.take(i + 1) =~= all.take(i as int).push(all[i as int]));
        }
        if let (BzlValue::Str(k), BzlValue::Str(v)) = (&pairs[i].0, &pairs[i].1) {
            r.push((k.clone(), v.clone()));
        }
        assert(text_pairs(r@) =~= text_pairs_among(all.take(i + 1)));
    }
    assert(all.take(pairs@.len() as int) =~= all);
    r
}

/// The texts of a list of pairs of strings.
pub open spec fn text_pairs(list: Seq<(String, String)>) -> Seq<(Seq<char>, Seq<char>)> {
    list.map_values(|p: (String, String)| (p.0@, p.1@))
}

/// The labels that a value names: the strings of a list, or the one string.
pub open spec fn labels_in(v: ValueView) -> Seq<Seq<char>> {
    match v {
        ValueView::List(items) => texts_among(items),
        ValueView::Str(s) => seq![s],
        _ => Seq::empty(),
    }
}

/// The labels that a value names.
pub fn labels_of(v: &BzlValue) -> (r: Vec<String>)
    ensures
        text::texts(r@) == labels_in(v@),
{
    proof {
        lemma_value_view(*v);
    }
    match v {
        BzlValue::List(items) => strings_among(items),
        BzlValue::Str(s) => {
            let mut r: Vec<String> = Vec::new();
            r.push(s.clone());
            assert(text::texts(r@) =~= labels_in(v@));
            r
        },
        _ => {
            let r: Vec<String> = Vec::new();
            assert(text::texts(r@) =~= labels_in(v@));
            r
        },
    }
}

// ---- Laws of extraction ----

/// The texts among values are taken value by value: a text gives itself, any other value nothing,
/// and what stands first comes first.
pub proof fn law_texts_are_taken_one_by_one(a: Seq<ValueView>, b: Seq<ValueView>, v: ValueView)
    ensures
        texts_among(a + b) == texts_among(a) + texts_among(b),
        texts_among(seq![v]) == (match v {
            ValueView::Str(s) => seq![s],
            _ => Seq::<Seq<char>>::empty(),
        }),
    decreases b.len(),
{
    let none = Seq::<ValueView>::empty();
    lemma_texts_among_push(none, v);
    assert(none.push(v) =~= seq![v]);
    reveal(Seq::filter);
    assert(texts_among(none) =~= Seq::empty());
    assert(v is Str ==> Seq::<Seq<char>>::empty().push(v->Str_0) =~= seq![v->Str_0]);
    if b.len() == 0 {
        assert(b =~= none);
        assert(a + b =~= a);
        assert(texts_among(a) + texts_among(b) =~= texts_among(a));
    } else {
        let before = b.drop_last();
        law_texts_are_taken_one_by_one(a, before, v);
        lemma_texts_among_push(a + before, b.last());
        lemma_texts_among_push(before, b.last());
        assert((a + before).push(b.last()) =~= a + b);
        assert(before.push(b.last()) =~= b);
        assert(texts_among(a + b) =~= texts_among(a) + texts_among(b));
    }
}

/// The pairs of texts among pairs are taken pair by pair: a pair of texts gives itself, any other
/// pair nothing, and what stands first comes first.
pub proof fn law_text_pairs_are_taken_one_by_one(
    a: Seq<(ValueView, ValueView)>,
    b: Seq<(ValueView, ValueView)>,
    p: (ValueView, ValueView),
)
    ensures
        text_pairs_among(a + b) == text_pairs_among(a) + text_pairs_among(b),
        text_pairs_among(seq![p]) == (match p {
            (ValueView::Str(k), ValueView::Str(v)) => seq![(k, v)],
            _ => Seq::<(Seq<char>, Seq<char>)>::empty(),
        }),
    decreases b.len(),
{
    let none = Seq::<(ValueView, ValueView)>::empty();
    lemma_text_pairs_among_push(none, p);
    assert(none.push(p) =~= seq![p]);
    reveal(Seq::filter);
    assert(text_pairs_among(none) =~= Seq::empty());
    if p.0 is Str && p.1 is Str {
        assert(Seq::<(Seq<char>, Seq<char>)>::empty().push((p.0->Str_0, p.1->Str_0)) =~= seq![
            (p.0->Str_0, p.1->Str_0),
        ]);
    }
    if b.len() == 0 {
        assert(b =~= none);
        assert(a + b =~= a);
        assert(text_pairs_among(a) + text_pairs_among(b) =~= text_pairs_among(a));
    } else {
        let before = b.drop_last();
        law_text_pairs_are_taken_one_by_one(a, before, p);
        lemma_text_pairs_among_push(a + before, b.last());
        lemma_text_pairs_among_push(before, b.last());
        assert((a + before).push(b.last()) =~= a + b);
        assert(before.push(b.last()) =~= b);
        assert(text_pairs_among(a + b) =~= text_pairs_among(a) + text_pairs_among(b));
    }
}

/// A text stands among the texts of values exactly where it is one of the values.
pub proof fn law_texts_among_are_values(items: Seq<ValueView>, s: Seq<char>)
    ensures
        texts_among(items).contains(s) <==> items.contains(ValueView::Str(s)),
    decreases items.len(),
{
    if items.len() == 0 {
        law_texts_are_taken_one_by_one(items, items, ValueView::Bool(true));
        assert(items + items =~= items);
        assert(texts_among(items).len() == texts_among(items).len() + texts_among(items).len());
    } else {
        let before = items.drop_last();
        law_texts_among_are_values(before, s);
        lemma_texts_among_push(before, items.last());
        assert(before.push(items.last()) =~= items);
        seqs::lemma_push_contains(before, items.last(), ValueView::Str(s));
        if items.last() is Str {
            seqs::lemma_push_contains(texts_among(before), items.last()->Str_0, s);
        }
    }
}

/// The labels that a value names are its strings, in order: those of a list, or the one that it is.
pub proof fn law_labels_are_the_strings(v: ValueView, l: Seq<char>)
    ensures
        labels_in(v).contains(l) <==> v == ValueView::Str(l) || (v matches ValueView::List(items)
            && items.contains(ValueView::Str(l))),
        v matches ValueView::List(items) ==> labels_in(v) == texts_among(items),
        v matches ValueView::Str(s) ==> labels_in(v) == seq![s],
{
    if let ValueView::List(items) = v {
        law_texts_among_are_values(items, l);
    }
    if let ValueView::Str(s) = v {
        assert(seq![s][0] == s);
    }
}

/// The model of a value tells all of it: its sort, and the models of everything it holds, each at its
/// place.
pub proof fn law_models_tell_the_whole_value(v: BzlValue)
    ensures
        v matches BzlValue::Bool(b) ==> v@ == ValueView::Bool(b),
        v matches BzlValue::Str(s) ==> v@ == ValueView::Str(s@),
        v matches BzlValue::Other(b) ==> v@ == ValueView::Other(b@),
        v matches BzlValue::List(items) ==> (v@ matches ValueView::List(m) && m.len() == items@.len()
            && forall|i: int| 0 <= i < m.len() ==> #[trigger] m[i] == items@[i]@),
        v matches BzlValue::Dict(pairs) ==> (v@ matches ValueView::Dict(m) && m.len() == pairs@.len()
            && forall|i: int|
            0 <= i < m.len() ==> (#[trigger] m[i]).0 == pairs@[i].0@ && m[i].1 == pairs@[i].1@),
        v matches BzlValue::Select(arms) ==> (v@ matches ValueView::Select(m) && m.len() == arms@.len()
            && forall|i: int| 0 <= i < m.len() ==> #[trigger] m[i] == arms@[i]@),
        v matches BzlValue::Rule(rule) ==> (v@ matches ValueView::Rule(m) && m.attrs.len()
            == rule.attrs@.len() && m.toolchains.len() == rule.toolchains@.len() && (forall|i: int|
            0 <= i < m.attrs.len() ==> (#[trigger] m.attrs[i]).0 == rule.attrs@[i].0@
                && m.attrs[i].1 == rule.attrs@[i].1) && forall|i: int|
            0 <= i < m.toolchains.len() ==> #[trigger] m.toolchains[i] == rule.toolchains@[i]@),
{
    lemma_value_view(v);
}

/// The model of an arm tells all of it: its value, or its conditions with their values, in order, and
/// its message.
pub proof fn law_models_tell_the_whole_arm(a: SelectArm)
    ensures
        a matches SelectArm::Concrete(v) ==> a@ == ArmView::Concrete(v@),
        a matches SelectArm::Branch { conditions, no_match_error } ==> (a@ matches ArmView::Branch {
            conditions: m,
            no_match_error: message,
        } && message == no_match_error@ && m.len() == conditions@.len() && forall|i: int|
            0 <= i < m.len() ==> (#[trigger] m[i]).0 == conditions@[i].0@ && m[i].1
                == conditions@[i].1@),
{
    lemma_arm_view(a);
}

/// The models of named values, of values, of pairs and of arms are those of the items, one by one.
pub proof fn law_models_are_taken_one_by_one(
    entries: Seq<(String, BzlValue)>,
    items: Seq<BzlValue>,
    pairs: Seq<(BzlValue, BzlValue)>,
    arms: Seq<SelectArm>,
    texts: Seq<(String, String)>,
)
    ensures
        named_view(entries).len() == entries.len(),
        forall|i: int|
            0 <= i < entries.len() ==> (#[trigger] named_view(entries)[i]).0 == entries[i].0@
                && named_view(entries)[i].1 == entries[i].1@,
        values_view(items).len() == items.len(),
        forall|i: int| 0 <= i < items.len() ==> #[trigger] values_view(items)[i] == items[i]@,
        pairs_view(pairs).len() == pairs.len(),
        forall|i: int|
            0 <= i < pairs.len() ==> (#[trigger] pairs_view(pairs)[i]).0 == pairs[i].0@
                && pairs_view(pairs)[i].1 == pairs[i].1@,
        arms_view(arms).len() == arms.len(),
        forall|i: int| 0 <= i < arms.len() ==> #[trigger] arms_view(arms)[i] == arms[i]@,
        text_pairs(texts).len() == texts.len(),
        forall|i: int|
            0 <= i < texts.len() ==> (#[trigger] text_pairs(texts)[i]).0 == texts[i].0@
                && text_pairs(texts)[i].1 == texts[i].1@,
{
}

} // verus!
