//! Configurations, and the match of a `config_setting` against a configuration.

use vstd::prelude::*;
use crate::decl::{
    self, DeclView, ProviderId, ProviderIdView, ProviderInstance, ProviderView, TargetDecl,
};
use crate::error::{self, Error, ErrorView};
use crate::key::{ConfiguredTargetKey, KeyView};
use crate::order::{self, sort_texts};
use crate::seqs;
use crate::string_map::StringMap;
use crate::target::{self, ConfiguredTarget, TargetView};
use crate::text::{self, contains_text, copy_texts, same_text};
use crate::value::{self, find_named, string_pairs_among, strings_among, BzlValue, ValueView};
use crate::visibility::{self, target_visibility};

verus! {

/// The condition that holds where no other does. It names no target.
pub const CONDITIONS_DEFAULT: &'static str = "//conditions:default";

/// The provider that carries the match of a `config_setting`: whether it matched, and the settings
/// that it was matched by.
pub const CONFIG_MATCH_INFO: &'static str = "ConfigMatchInfo";

/// What configurations are made of: by the name of a configuration, the constraint values of its
/// platform, and its values by key.
pub struct SelectConfig {
    pub platforms: StringMap<Vec<String>>,
    pub values: StringMap<StringMap<String>>,
}

impl Default for SelectConfig {
    /// No configuration at all.
    fn default() -> (r: Self)
        ensures
            r.platforms@ == Map::<Seq<char>, Vec<String>>::empty(),
            r.values@ == Map::<Seq<char>, StringMap<String>>::empty(),
    {
        SelectConfig { platforms: StringMap::new(), values: StringMap::new() }
    }
}

/// Whether there are no configurations at all.
pub open spec fn no_configurations(sc: SelectConfig) -> bool {
    sc.platforms@ == Map::<Seq<char>, Vec<String>>::empty() && sc.values@ == Map::<
        Seq<char>,
        StringMap<String>,
    >::empty()
}

/// Whether there is something to match against: a configuration is named, and there are some.
pub open spec fn resolvable(sc: SelectConfig, configuration: Option<Seq<char>>) -> bool {
    configuration is Some && !no_configurations(sc)
}

/// The constraint values of a configuration. One that is not known has none.
pub open spec fn constraints_of(sc: SelectConfig, configuration: Option<Seq<char>>) -> Seq<
    Seq<char>,
> {
    match configuration {
        Some(c) => if sc.platforms@.dom().contains(c) {
            text::texts(sc.platforms@[c]@)
        } else {
            Seq::empty()
        },
        None => Seq::empty(),
    }
}

/// Whether a configuration has the given value under the given key.
pub open spec fn has_value(
    sc: SelectConfig,
    configuration: Option<Seq<char>>,
    k: Seq<char>,
    v: Seq<char>,
) -> bool {
    match configuration {
        Some(c) => sc.values@.dom().contains(c) && sc.values@[c]@.dom().contains(k)
            && sc.values@[c]@[k]@ == v,
        None => false,
    }
}

impl Clone for SelectConfig {
    fn clone(&self) -> (r: Self)
        ensures
            r.platforms@.dom() == self.platforms@.dom(),
            r.values@.dom() == self.values@.dom(),
            forall|c: Option<Seq<char>>| #[trigger]
                constraints_of(r, c) == constraints_of(*self, c),
            forall|c: Option<Seq<char>>, k: Seq<char>, v: Seq<char>| #[trigger]
                has_value(r, c, k, v) == has_value(*self, c, k, v),
    {
        let r = SelectConfig { platforms: self.platforms.clone(), values: self.values.clone() };
        proof {
            assert forall|c: Option<Seq<char>>| #[trigger]
                constraints_of(r, c) == constraints_of(*self, c) by {
                if let Some(name) = c {
                    if self.platforms@.dom().contains(name) {
                        assert(self.platforms@[name]@ =~= r.platforms@[name]@);
                    }
                }
            }
            assert forall|c: Option<Seq<char>>, k: Seq<char>, v: Seq<char>| #[trigger]
                has_value(r, c, k, v) == has_value(*self, c, k, v) by {
                if let Some(name) = c {
                    if self.values@.dom().contains(name) {
                        let (a, b) = (self.values@[name]@, r.values@[name]@);
                        assert(a.dom() == b.dom());
                        if a.dom().contains(k) {
                            assert(a[k]@ == b[k]@);
                        }
                    }
                }
            }
        }
        r
    }
}

// ---- The attributes of a `config_setting` ----

/// Whether a list holds strings only.
pub open spec fn all_texts(items: Seq<ValueView>) -> bool {
    forall|i: int| 0 <= i < items.len() ==> #[trigger] items[i] is Str
}

/// The texts of an attribute that is a list of strings. Any other attribute has none.
pub open spec fn texts_attr(target: DeclView, name: Seq<char>) -> Seq<Seq<char>> {
    match value::lookup(target.attrs, name) {
        Some(ValueView::List(items)) => if all_texts(items) {
            items.map_values(|v: ValueView| v->Str_0)
        } else {
            Seq::empty()
        },
        _ => Seq::empty(),
    }
}

/// The pairs of texts of an attribute that is a dictionary.
pub open spec fn pairs_attr(target: DeclView, name: Seq<char>) -> Seq<(Seq<char>, Seq<char>)> {
    match value::lookup(target.attrs, name) {
        Some(ValueView::Dict(pairs)) => value::text_pairs_among(pairs),
        _ => Seq::empty(),
    }
}

/// The strings of a list that holds strings only.
fn strings_of(items: &Vec<BzlValue>) -> (r: Option<Vec<String>>)
    ensures
        match r {
            Some(list) => all_texts(value::values_view(items@)) && text::texts(list@)
                == value::values_view(items@).map_values(|v: ValueView| v->Str_0),
            None => !all_texts(value::values_view(items@)),
        },
{
    let ghost all = value::values_view(items@);
    let mut r: Vec<String> = Vec::new();
    for i in 0..items.len()
        invariant
            all == value::values_view(items@),
            r@.len() == i,
            forall|j: int|
                0 <= j < i ==> #[trigger] all[j] is Str && all[j]->Str_0 == r@[j]@,
    {
        match &items[i] {
            BzlValue::Str(s) => {
                r.push(s.clone());
                assert(all[i as int] == ValueView::Str(s@));
            },
            _ => {
                assert(!(all[i as int] is Str));
                return None;
            },
        }
    }
    assert(text::texts(r@) =~= all.map_values(|v: ValueView| v->Str_0));
    Some(r)
}

/// The strings of an attribute that is a list of strings.
pub fn attr_str_list(target: &TargetDecl, name: &str) -> (r: Vec<String>)
    ensures
        text::texts(r@) == texts_attr(target@, name@),
{
    if let Some(v) = find_named(&target.attrs, name) {
        proof {
            value::lemma_value_view(*v);
        }
        if let BzlValue::List(items) = v {
            if let Some(list) = strings_of(items) {
                return list;
            }
        }
    }
    let r: Vec<String> = Vec::new();
    assert(text::texts(r@) =~= Seq::empty());
    r
}

/// The pairs of strings of an attribute that is a dictionary.
pub fn attr_str_dict(target: &TargetDecl, name: &str) -> (r: Vec<(String, String)>)
    ensures
        value::text_pairs(r@) == pairs_attr(target@, name@),
{
    if let Some(v) = find_named(&target.attrs, name) {
        proof {
            value::lemma_value_view(*v);
        }
        if let BzlValue::Dict(pairs) = v {
            return string_pairs_among(pairs);
        }
    }
    let r: Vec<(String, String)> = Vec::new();
    assert(value::text_pairs(r@) =~= Seq::empty());
    r
}

// ---- The match of a `config_setting` ----

/// The instance of the match provider for a match.
pub open spec fn match_info(matched: bool, settings: Seq<Seq<char>>) -> ProviderView {
    ProviderView {
        provider: decl::builtin(CONFIG_MATCH_INFO@),
        fields: seq![
            ("matched"@, ValueView::Bool(matched)),
            ("settings"@, ValueView::List(settings.map_values(|s: Seq<char>| ValueView::Str(s)))),
        ],
    }
}

/// The instance of the match provider for a match.
fn config_match_provider(matched: bool, settings: Vec<String>) -> (r: ProviderInstance)
    ensures
        r@ == match_info(matched, text::texts(settings@)),
{
    let ghost all = text::texts(settings@);
    let mut items: Vec<BzlValue> = Vec::new();
    for i in 0..settings.len()
        invariant
            items@.len() == i,
            forall|j: int|
                0 <= j < i ==> (#[trigger] items@[j])@ == ValueView::Str(settings@[j]@),
    {
        items.push(BzlValue::Str(settings[i].clone()));
    }
    let list = BzlValue::List(items);
    let flag = BzlValue::Bool(matched);
    proof {
        value::lemma_value_view(list);
        assert(value::values_view(items@) =~= all.map_values(|s: Seq<char>| ValueView::Str(s)));
    }
    let mut fields: Vec<(String, BzlValue)> = Vec::new();
    fields.push(("matched".to_owned(), flag));
    fields.push(("settings".to_owned(), list));
    assert(value::named_view(fields@) =~= match_info(matched, all).fields);
    ProviderInstance { provider: ProviderId::from_name(CONFIG_MATCH_INFO), fields }
}

/// The match that a target carries: whether it matched, and its settings. A target without a match
/// provider of the right form carries none.
pub open spec fn match_of(t: TargetView) -> Option<(bool, Seq<Seq<char>>)> {
    match target::published(t.providers, decl::builtin(CONFIG_MATCH_INFO@)) {
        None => None,
        Some(p) => match (
            value::lookup(p.fields, "matched"@),
            value::lookup(p.fields, "settings"@),
        ) {
            (Some(ValueView::Bool(b)), Some(ValueView::List(items))) => Some(
                (b, value::texts_among(items)),
            ),
            _ => None,
        },
    }
}

/// The model of a match.
pub open spec fn verdict(m: (bool, Vec<String>)) -> (bool, Seq<Seq<char>>) {
    (m.0, text::texts(m.1@))
}

/// The match that a configured target carries.
pub fn read_config_match(ct: &ConfiguredTarget) -> (r: Option<(bool, Vec<String>)>)
    ensures
        match r {
            Some(m) => match_of(ct@) == Some(verdict(m)),
            None => match_of(ct@) is None,
        },
{
    let p = ct.provider(&ProviderId::from_name(CONFIG_MATCH_INFO))?;
    let matched = p.get("matched")?;
    proof {
        value::lemma_value_view(*matched);
    }
    let b = match matched {
        BzlValue::Bool(b) => *b,
        _ => {
            return None;
        },
    };
    let settings = p.get("settings")?;
    proof {
        value::lemma_value_view(*settings);
    }
    match settings {
        BzlValue::List(items) => Some((b, strings_among(items))),
        _ => None,
    }
}

/// Whether a key of `values` is one of those that are evaluated.
pub open spec fn supported(k: Seq<char>) -> bool {
    k == "cpu"@ || k == "compilation_mode"@
}

/// The setting that an entry of `values` stands for.
pub open spec fn value_setting(kv: (Seq<char>, Seq<char>)) -> Seq<char> {
    "values:"@ + kv.0 + "="@ + kv.1
}

/// The settings of a `config_setting`: its constraint values, then its values.
pub open spec fn settings_of(target: DeclView) -> Seq<Seq<char>> {
    texts_attr(target, "constraint_values"@) + pairs_attr(target, "values"@).map_values(
        |kv: (Seq<char>, Seq<char>)| value_setting(kv),
    )
}

/// Whether a `config_setting` matches a configuration: every constraint value of it is one of the
/// configuration, and every value of it is that of the configuration.
pub open spec fn matches_configuration(
    target: DeclView,
    configuration: Option<Seq<char>>,
    sc: SelectConfig,
) -> bool {
    let constraints = texts_attr(target, "constraint_values"@);
    let values = pairs_attr(target, "values"@);
    &&& forall|i: int|
        0 <= i < constraints.len() ==> constraints_of(sc, configuration).contains(
            #[trigger] constraints[i],
        )
    &&& forall|i: int|
        0 <= i < values.len() ==> has_value(
            sc,
            configuration,
            (#[trigger] values[i]).0,
            values[i].1,
        )
}

/// The failure of a `config_setting` that uses defines or flags.
pub open spec fn defines_error(key: KeyView) -> ErrorView {
    ErrorView::Unsupported {
        what: "config_setting define_values/flag_values"@,
        detail: "//"@ + key.package + ":"@ + key.name
            + " uses define_values/flag_values, which razel does not evaluate in v1 (accepted-fail-closed-on-use)"@,
    }
}

/// The failure of a `config_setting` with conditions where there is no configuration to match.
pub open spec fn no_configuration_error(key: KeyView) -> ErrorView {
    ErrorView::Unsupported {
        what: "config_setting resolution"@,
        detail: "//"@ + key.package + ":"@ + key.name
            + " has constraint_values/values but the target has no configuration to resolve against"@,
    }
}

/// The failure of a `config_setting` with a key of `values` that is not evaluated.
pub open spec fn values_key_error(key: KeyView, k: Seq<char>) -> ErrorView {
    ErrorView::Unsupported {
        what: "config_setting values key"@,
        detail: "//"@ + key.package + ":"@ + key.name + ": unsupported values key '"@ + k
            + "' (v1 supports [\"cpu\", \"compilation_mode\"]; an unknown key fails closed)"@,
    }
}

/// The configured target of a `config_setting`.
pub open spec fn config_match(key: KeyView, target: DeclView, sc: SelectConfig) -> Result<
    TargetView,
    ErrorView,
> {
    let constraints = texts_attr(target, "constraint_values"@);
    let values = pairs_attr(target, "values"@);
    if pairs_attr(target, "define_values"@).len() > 0 || pairs_attr(target, "flag_values"@).len()
        > 0 {
        Err(defines_error(key))
    } else if !resolvable(sc, key.configuration) && (constraints.len() > 0 || values.len() > 0) {
        Err(no_configuration_error(key))
    } else {
        match seqs::first(values, |kv: (Seq<char>, Seq<char>)| !supported(kv.0)) {
            Some(kv) => Err(values_key_error(key, kv.0)),
            None => Ok(
                TargetView {
                    providers: seq![
                        match_info(
                            matches_configuration(target, key.configuration, sc),
                            order::sorted(settings_of(target)),
                        ),
                    ],
                    actions: Seq::empty(),
                    dep_outputs: Seq::empty(),
                    visibility: visibility::visibility_of(target),
                },
            ),
        }
    }
}

/// Whether there is something to match against.
fn can_resolve(sc: &SelectConfig, configuration: &Option<String>) -> (r: bool)
    ensures
        r == resolvable(*sc, text::optional(*configuration)),
{
    configuration.is_some() && !(sc.platforms.is_empty() && sc.values.is_empty())
}

/// Whether a constraint value is one of those of a configuration.
fn constraint_holds(sc: &SelectConfig, configuration: &Option<String>, cv: &str) -> (r: bool)
    ensures
        r == constraints_of(*sc, text::optional(*configuration)).contains(cv@),
{
    match configuration {
        Some(c) => match sc.platforms.get(c) {
            Some(list) => contains_text(list, cv),
            None => false,
        },
        None => false,
    }
}

/// Whether a configuration has the given value under the given key.
fn value_holds(sc: &SelectConfig, configuration: &Option<String>, k: &str, v: &str) -> (r: bool)
    ensures
        r == has_value(*sc, text::optional(*configuration), k@, v@),
{
    match configuration {
        Some(c) => match sc.values.get(c) {
            Some(map) => match map.get(k) {
                Some(there) => same_text(there, v),
                None => false,
            },
            None => false,
        },
        None => false,
    }
}

/// The configured target of a native `config_setting`.
pub fn compute_config_match(
    ctk: &ConfiguredTargetKey,
    target: &TargetDecl,
    select_config: &SelectConfig,
) -> (r: Result<ConfiguredTarget, Error>)
    ensures
        error::outcome(r) == config_match(ctk@, target@, *select_config),
{
    let constraint_values = attr_str_list(target, "constraint_values");
    let values = attr_str_dict(target, "values");
    let define_values = attr_str_dict(target, "define_values");
    let flag_values = attr_str_dict(target, "flag_values");
    if define_values.len() > 0 || flag_values.len() > 0 {
        return Err(
            Error::Unsupported {
                what: "config_setting define_values/flag_values",
                detail: "//".to_owned().concat(&ctk.package).concat(":").concat(&ctk.name).concat(
                    " uses define_values/flag_values, which razel does not evaluate in v1 (accepted-fail-closed-on-use)",
                ),
            },
        );
    }
    if !can_resolve(select_config, &ctk.configuration) && (constraint_values.len() > 0
        || values.len() > 0) {
        return Err(
            Error::Unsupported {
                what: "config_setting resolution",
                detail: "//".to_owned().concat(&ctk.package).concat(":").concat(&ctk.name).concat(
                    " has constraint_values/values but the target has no configuration to resolve against",
                ),
            },
        );
    }
    let ghost configuration = ctk@.configuration;
    let ghost cs = texts_attr(target@, "constraint_values"@);
    let ghost vs = pairs_attr(target@, "values"@);
    let ghost p = |kv: (Seq<char>, Seq<char>)| !supported(kv.0);
    let ghost as_setting = |kv: (Seq<char>, Seq<char>)| value_setting(kv);
    let mut settings: Vec<String> = copy_texts(&constraint_values);
    let mut matched = true;
    for i in 0..constraint_values.len()
        invariant
            cs == text::texts(constraint_values@),
            configuration == text::optional(ctk.configuration),
            matched == forall|j: int|
                0 <= j < i ==> constraints_of(*select_config, configuration).contains(
                    #[trigger] cs[j],
                ),
    {
        if !constraint_holds(select_config, &ctk.configuration, &constraint_values[i]) {
            matched = false;
            assert(!constraints_of(*select_config, configuration).contains(cs[i as int]));
        }
    }
    let ghost by_constraints = matched;
    assert(text::texts(settings@) =~= cs + vs.take(0).map_values(as_setting));
    for i in 0..values.len()
        invariant
            vs == value::text_pairs(values@),
            vs == pairs_attr(target@, "values"@),
            cs == texts_attr(target@, "constraint_values"@),
            configuration == text::optional(ctk.configuration),
            configuration == ctk@.configuration,
            p == (|kv: (Seq<char>, Seq<char>)| !supported(kv.0)),
            as_setting == (|kv: (Seq<char>, Seq<char>)| value_setting(kv)),
            pairs_attr(target@, "define_values"@).len() == 0,
            pairs_attr(target@, "flag_values"@).len() == 0,
            resolvable(*select_config, configuration) || (cs.len() == 0 && vs.len() == 0),
            forall|j: int| 0 <= j < i ==> !p(#[trigger] vs[j]),
            text::texts(settings@) == cs + vs.take(i as int).map_values(as_setting),
            matched == (by_constraints && forall|j: int|
                0 <= j < i ==> has_value(
                    *select_config,
                    configuration,
                    (#[trigger] vs[j]).0,
                    vs[j].1,
                )),
    {
        let k = &values[i].0;
        let v = &values[i].1;
        if !same_text(k, "cpu") && !same_text(k, "compilation_mode") {
            proof {
                assert(seqs::first_where(vs, p, i as int));
                seqs::lemma_first_at(vs, p, i as int);
            }
            return Err(
                Error::Unsupported {
                    what: "config_setting values key",
                    detail: "//".to_owned().concat(&ctk.package).concat(":").concat(
                        &ctk.name,
                    ).concat(": unsupported values key '").concat(k).concat(
                        "' (v1 supports [\"cpu\", \"compilation_mode\"]; an unknown key fails closed)",
                    ),
                },
            );
        }
        let ghost before = text::texts(settings@);
        settings.push("values:".to_owned().concat(k).concat("=").concat(v));
        assert(text::texts(settings@) =~= before.push(value_setting(vs[i as int])));
        assert(text::texts(settings@) =~= cs + vs.take(i + 1).map_values(as_setting));
        if !value_holds(select_config, &ctk.configuration, k, v) {
            matched = false;
            assert(!has_value(*select_config, configuration, vs[i as int].0, vs[i as int].1));
        }
    }
    assert(vs.take(values@.len() as int) =~= vs);
    let info = config_match_provider(matched, sort_texts(&settings));
    let mut providers: Vec<ProviderInstance> = Vec::new();
    providers.push(info);
    let ct = ConfiguredTarget {
        providers,
        actions: Vec::new(),
        dep_outputs: Vec::new(),
        visibility: target_visibility(target),
    };
    proof {
        let t = config_match(ctk@, target@, *select_config)->Ok_0;
        assert(ct@.providers =~= t.providers);
        assert(ct@.actions =~= t.actions);
        assert(ct@.dep_outputs =~= t.dep_outputs);
    }
    Ok(ct)
}

// ---- Laws of the match ----

/// The texts of values that are all texts.
proof fn lemma_texts_of_texts(list: Seq<Seq<char>>)
    ensures
        value::texts_among(list.map_values(|s: Seq<char>| ValueView::Str(s))) == list,
    decreases list.len(),
{
    let f = |s: Seq<char>| ValueView::Str(s);
    let p = |v: ValueView| v is Str;
    if list.len() == 0 {
        reveal(Seq::filter);
        assert(value::texts_among(list.map_values(f)) =~= list);
    } else {
        lemma_texts_of_texts(list.drop_last());
        let before = list.drop_last().map_values(f);
        seqs::lemma_filter_push(before, p, f(list.last()));
        assert(list.map_values(f) =~= before.push(f(list.last())));
        assert(value::texts_among(list.map_values(f)) =~= value::texts_among(before).push(
            list.last(),
        ));
        assert(list =~= list.drop_last().push(list.last()));
    }
}

/// What is written of a match is what is read of it.
pub proof fn law_match_is_read_back(matched: bool, settings: Seq<Seq<char>>, t: TargetView)
    requires
        target::published(t.providers, decl::builtin(CONFIG_MATCH_INFO@)) == Some(
            match_info(matched, settings),
        ),
    ensures
        match_of(t) == Some((matched, settings)),
{
    reveal_strlit("matched");
    reveal_strlit("settings");
    assert("matched"@.len() != "settings"@.len());
    let fields = match_info(matched, settings).fields;
    let m = value::named::<ValueView>("matched"@);
    let s = value::named::<ValueView>("settings"@);
    assert(seqs::first_where(fields, m, 0));
    seqs::lemma_first_at(fields, m, 0);
    assert(seqs::first_where(fields, s, 1));
    seqs::lemma_first_at(fields, s, 1);
    lemma_texts_of_texts(settings);
}

/// A `select()` reads of a `config_setting` whether it matches the configuration, and the settings
/// it is made of, in order.
pub proof fn law_config_match_is_read(key: KeyView, target: DeclView, sc: SelectConfig)
    requires
        config_match(key, target, sc) is Ok,
    ensures
        match_of(config_match(key, target, sc)->Ok_0) == Some(
            (
                matches_configuration(target, key.configuration, sc),
                order::sorted(settings_of(target)),
            ),
        ),
        order::sorted(settings_of(target)).to_set() == settings_of(target).to_set(),
{
    let t = config_match(key, target, sc)->Ok_0;
    let p = |q: ProviderView| q.provider == decl::builtin(CONFIG_MATCH_INFO@);
    assert(seqs::first_where(t.providers, p, 0));
    seqs::lemma_first_at(t.providers, p, 0);
    law_match_is_read_back(
        matches_configuration(target, key.configuration, sc),
        order::sorted(settings_of(target)),
        t,
    );
    order::lemma_sorted_holds_the_same(settings_of(target));
}

/// What cannot be evaluated is never taken for a match or for none: a `config_setting` is answered
/// only where it uses no defines and no flags, where its keys are evaluated, and, if it has
/// conditions, where a configuration is named and there are configurations at all.
pub proof fn law_config_settings_fail_closed(key: KeyView, target: DeclView, sc: SelectConfig)
    ensures
        config_match(key, target, sc) is Ok <==> {
            &&& pairs_attr(target, "define_values"@).len() == 0
            &&& pairs_attr(target, "flag_values"@).len() == 0
            &&& resolvable(sc, key.configuration) || settings_of(target).len() == 0
            &&& forall|i: int|
                0 <= i < pairs_attr(target, "values"@).len() ==> supported(
                    (#[trigger] pairs_attr(target, "values"@)[i]).0,
                )
        },
{
    let values = pairs_attr(target, "values"@);
    let p = |kv: (Seq<char>, Seq<char>)| !supported(kv.0);
    if exists|i: int| 0 <= i < values.len() && p(#[trigger] values[i]) {
        let i = choose|i: int| 0 <= i < values.len() && p(#[trigger] values[i]);
        seqs::lemma_first_exists(values, p, i);
    } else {
        assert forall|i: int| 0 <= i < values.len() implies supported((#[trigger] values[i]).0) by {
            assert(!p(values[i]));
        }
    }
}

/// Without any configuration nothing is resolvable: a `config_setting` with conditions fails.
pub proof fn law_conditions_need_a_configuration(key: KeyView, target: DeclView, sc: SelectConfig)
    requires
        no_configurations(sc),
        settings_of(target).len() > 0,
    ensures
        config_match(key, target, sc) is Err,
{
}

// ---- Laws of the conditions, written out ----

/// A list of strings is read string by string, and any other attribute as an empty list.
pub proof fn law_string_lists_are_read_in_full(target: DeclView, name: Seq<char>)
    ensures
        match value::lookup(target.attrs, name) {
            Some(ValueView::List(items)) => if forall|i: int|
                0 <= i < items.len() ==> #[trigger] items[i] is Str {
                texts_attr(target, name).len() == items.len() && forall|i: int|
                    0 <= i < items.len() ==> ValueView::Str(
                        #[trigger] texts_attr(target, name)[i],
                    ) == items[i]
            } else {
                texts_attr(target, name).len() == 0
            },
            _ => texts_attr(target, name).len() == 0,
        },
{
}

/// The pairs of strings of a dictionary are read, and any other attribute as an empty dictionary.
pub proof fn law_string_dictionaries_are_read(target: DeclView, name: Seq<char>)
    ensures
        match value::lookup(target.attrs, name) {
            Some(ValueView::Dict(pairs)) => pairs_attr(target, name) == value::text_pairs_among(
                pairs,
            ),
            _ => pairs_attr(target, name).len() == 0,
        },
{
}

/// Whether the platform of a configuration lists a constraint value.
pub open spec fn platform_lists(sc: SelectConfig, c: Seq<char>, cv: Seq<char>) -> bool {
    sc.platforms@.dom().contains(c) && exists|j: int|
        0 <= j < sc.platforms@[c]@.len() && #[trigger] sc.platforms@[c]@[j]@ == cv
}

/// Whether a value stands under a key of a configuration.
pub open spec fn value_stands(
    sc: SelectConfig,
    c: Seq<char>,
    kv: (Seq<char>, Seq<char>),
) -> bool {
    sc.values@.dom().contains(c) && sc.values@[c]@.dom().contains(kv.0) && sc.values@[c]@[kv.0]@
        == kv.1
}

/// A configuration has the constraint values that its platform lists, and the values that stand
/// under its name.
pub proof fn law_configurations_are_what_is_listed(
    sc: SelectConfig,
    configuration: Option<Seq<char>>,
    cv: Seq<char>,
    k: Seq<char>,
    v: Seq<char>,
)
    ensures
        constraints_of(sc, configuration).contains(cv) <==> (configuration matches Some(c)
            && platform_lists(sc, c, cv)),
        has_value(sc, configuration, k, v) <==> (configuration matches Some(c)
            && value_stands(sc, c, (k, v))),
{
    if let Some(c) = configuration {
        if sc.platforms@.dom().contains(c) {
            let list = sc.platforms@[c]@;
            if constraints_of(sc, configuration).contains(cv) {
                let j = choose|j: int|
                    0 <= j < text::texts(list).len() && text::texts(list)[j] == cv;
                assert(list[j]@ == cv);
            }
            if exists|j: int| 0 <= j < list.len() && #[trigger] list[j]@ == cv {
                let j = choose|j: int| 0 <= j < list.len() && #[trigger] list[j]@ == cv;
                assert(text::texts(list)[j] == cv);
            }
        }
    }
}

/// Every condition has to hold: where a `config_setting` is answered, it matches exactly where every
/// constraint value of it is listed for the platform of its configuration and every value of it is
/// the one that the configuration has. One that does not hold is enough for no match.
pub proof fn law_every_condition_has_to_hold(key: KeyView, target: DeclView, sc: SelectConfig)
    requires
        config_match(key, target, sc) is Ok,
    ensures
        ({
            let constraints = texts_attr(target, "constraint_values"@);
            let values = pairs_attr(target, "values"@);
            match_of(config_match(key, target, sc)->Ok_0) matches Some((matched, _)) && (matched <==> {
                &&& forall|i: int|
                    0 <= i < constraints.len() ==> (key.configuration matches Some(c)
                        && platform_lists(sc, c, #[trigger] constraints[i]))
                &&& forall|i: int|
                    0 <= i < values.len() ==> (key.configuration matches Some(c)
                        && value_stands(sc, c, #[trigger] values[i]))
            })
        }),
{
    let constraints = texts_attr(target, "constraint_values"@);
    let values = pairs_attr(target, "values"@);
    law_config_match_is_read(key, target, sc);
    let matched = matches_configuration(target, key.configuration, sc);
    let listed = forall|i: int|
        0 <= i < constraints.len() ==> (key.configuration matches Some(c) && platform_lists(
            sc,
            c,
            #[trigger] constraints[i],
        ));
    let had = forall|i: int|
        0 <= i < values.len() ==> (key.configuration matches Some(c) && value_stands(
            sc,
            c,
            #[trigger] values[i],
        ));
    let none = Seq::<char>::empty();
    if matched {
        assert forall|i: int| 0 <= i < constraints.len() implies (key.configuration matches Some(c)
            && platform_lists(sc, c, #[trigger] constraints[i])) by {
            assert(constraints_of(sc, key.configuration).contains(constraints[i]));
            law_configurations_are_what_is_listed(
                sc,
                key.configuration,
                constraints[i],
                none,
                none,
            );
        }
        assert(listed);
        assert forall|i: int| 0 <= i < values.len() implies (key.configuration matches Some(c)
            && value_stands(sc, c, #[trigger] values[i])) by {
            assert(has_value(sc, key.configuration, values[i].0, values[i].1));
        }
        assert(had);
    }
    if listed && had {
        assert forall|i: int| 0 <= i < constraints.len() implies constraints_of(
            sc,
            key.configuration,
        ).contains(#[trigger] constraints[i]) by {
            law_configurations_are_what_is_listed(
                sc,
                key.configuration,
                constraints[i],
                none,
                none,
            );
        }
        assert(matched);
    }
}

/// A constraint value outside the platform of the configuration is enough for no match, and so is a
/// value that the configuration does not have.
pub proof fn law_one_failing_condition_is_enough(
    key: KeyView,
    target: DeclView,
    sc: SelectConfig,
    i: int,
)
    requires
        config_match(key, target, sc) is Ok,
    ensures
        0 <= i < texts_attr(target, "constraint_values"@).len() && !constraints_of(
            sc,
            key.configuration,
        ).contains(texts_attr(target, "constraint_values"@)[i]) ==> (match_of(
            config_match(key, target, sc)->Ok_0,
        ) matches Some((matched, _)) && !matched),
        0 <= i < pairs_attr(target, "values"@).len() && !has_value(
            sc,
            key.configuration,
            pairs_attr(target, "values"@)[i].0,
            pairs_attr(target, "values"@)[i].1,
        ) ==> (match_of(config_match(key, target, sc)->Ok_0) matches Some((matched, _)) && !matched),
{
    law_config_match_is_read(key, target, sc);
}

/// The settings of a match are the constraint values and, as `values:key=value`, the values, each as
/// often as it was written, and in order.
pub proof fn law_settings_are_all_conditions(key: KeyView, target: DeclView, sc: SelectConfig)
    requires
        config_match(key, target, sc) is Ok,
    ensures
        ({
            let constraints = texts_attr(target, "constraint_values"@);
            let values = pairs_attr(target, "values"@);
            match_of(config_match(key, target, sc)->Ok_0) matches Some((_, settings)) && {
                &&& settings.to_multiset() == (constraints + values.map_values(
                    |kv: (Seq<char>, Seq<char>)| "values:"@ + kv.0 + "="@ + kv.1,
                )).to_multiset()
                &&& forall|i: int, j: int|
                    0 <= i < j < settings.len() ==> #[trigger] order::at_most(
                        settings[i],
                        settings[j],
                    )
            }
        }),
{
    let values = pairs_attr(target, "values"@);
    law_config_match_is_read(key, target, sc);
    order::law_sorting_orders(settings_of(target));
    assert(values.map_values(|kv: (Seq<char>, Seq<char>)| value_setting(kv)) =~= values.map_values(
        |kv: (Seq<char>, Seq<char>)| "values:"@ + kv.0 + "="@ + kv.1,
    ));
}

/// A `config_setting` publishes its match and nothing else, and keeps its visibility.
pub proof fn law_config_settings_publish_their_match_only(
    key: KeyView,
    target: DeclView,
    sc: SelectConfig,
)
    requires
        config_match(key, target, sc) is Ok,
    ensures
        ({
            let t = config_match(key, target, sc)->Ok_0;
            &&& t.providers.len() == 1
            &&& t.providers[0].provider.bzl is None
            &&& t.providers[0].provider.name == "ConfigMatchInfo"@
            &&& t.providers[0].fields.len() == 2
            &&& t.providers[0].fields[0].0 == "matched"@
            &&& t.providers[0].fields[0].1 is Bool
            &&& t.providers[0].fields[1].0 == "settings"@
            &&& t.providers[0].fields[1].1 matches ValueView::List(items)
            &&& forall|i: int| 0 <= i < items.len() ==> #[trigger] items[i] is Str
            &&& t.actions.len() == 0
            &&& t.dep_outputs.len() == 0
            &&& t.visibility == visibility::visibility_of(target)
        }),
{
}

/// A match is read of the first builtin provider of the name, from its two fields.
pub proof fn law_matches_are_read_of_two_fields(t: TargetView)
    ensures
        match_of(t) == (match target::published(
            t.providers,
            ProviderIdView { bzl: None, name: "ConfigMatchInfo"@ },
        ) {
            Some(p) => match value::lookup(p.fields, "matched"@) {
                Some(ValueView::Bool(b)) => match value::lookup(p.fields, "settings"@) {
                    Some(ValueView::List(items)) => Some((b, value::texts_among(items))),
                    _ => None,
                },
                _ => None,
            },
            None => None::<(bool, Seq<Seq<char>>)>,
        }),
{
}

/// A `config_setting` is refused for its first fault: defines and flags, then conditions without a
/// configuration to match, then the first key of its values that is not `cpu` or `compilation_mode`.
/// The failure names the target.
pub proof fn law_faults_of_config_settings(
    key: KeyView,
    target: DeclView,
    sc: SelectConfig,
    i: int,
)
    ensures
        ({
            let values = pairs_attr(target, "values"@);
            let uses_flags = pairs_attr(target, "define_values"@).len() > 0 || pairs_attr(
                target,
                "flag_values"@,
            ).len() > 0;
            let conditional = texts_attr(target, "constraint_values"@).len() > 0 || values.len() > 0;
            let unknown = key.configuration is None || ((forall|c: Seq<char>|
                !#[trigger] sc.platforms@.dom().contains(c)) && (forall|c: Seq<char>|
                !#[trigger] sc.values@.dom().contains(c)));
            let named = "//"@ + key.package + ":"@ + key.name;
            let r = config_match(key, target, sc);
            &&& uses_flags ==> r == Err::<TargetView, ErrorView>(
                ErrorView::Unsupported {
                    what: "config_setting define_values/flag_values"@,
                    detail: named
                        + " uses define_values/flag_values, which razel does not evaluate in v1 (accepted-fail-closed-on-use)"@,
                },
            )
            &&& !uses_flags && conditional && unknown ==> r == Err::<TargetView, ErrorView>(
                ErrorView::Unsupported {
                    what: "config_setting resolution"@,
                    detail: named
                        + " has constraint_values/values but the target has no configuration to resolve against"@,
                },
            )
            &&& !uses_flags && !(conditional && unknown) && 0 <= i < values.len() && values[i].0
                != "cpu"@ && values[i].0 != "compilation_mode"@ && (forall|j: int|
                0 <= j < i ==> (#[trigger] values[j]).0 == "cpu"@ || values[j].0
                    == "compilation_mode"@) ==> r == Err::<TargetView, ErrorView>(
                ErrorView::Unsupported {
                    what: "config_setting values key"@,
                    detail: named + ": unsupported values key '"@ + values[i].0
                        + "' (v1 supports [\"cpu\", \"compilation_mode\"]; an unknown key fails closed)"@,
                },
            )
            &&& !uses_flags && !(conditional && unknown) && (forall|j: int|
                0 <= j < values.len() ==> (#[trigger] values[j]).0 == "cpu"@ || values[j].0
                    == "compilation_mode"@) ==> r is Ok
        }),
{
    let values = pairs_attr(target, "values"@);
    let p = |kv: (Seq<char>, Seq<char>)| !supported(kv.0);
    if forall|c: Seq<char>| !#[trigger] sc.platforms@.dom().contains(c) {
        assert(sc.platforms@ =~= Map::<Seq<char>, Vec<String>>::empty());
    }
    if forall|c: Seq<char>| !#[trigger] sc.values@.dom().contains(c) {
        assert(sc.values@ =~= Map::<Seq<char>, StringMap<String>>::empty());
    }
    if 0 <= i < values.len() && p(values[i]) && forall|j: int|
        0 <= j < i ==> (#[trigger] values[j]).0 == "cpu"@ || values[j].0 == "compilation_mode"@ {
        assert forall|j: int| 0 <= j < i implies !p(#[trigger] values[j]) by {}
        assert(seqs::first_where(values, p, i));
        seqs::lemma_first_at(values, p, i);
    }
    if forall|j: int|
        0 <= j < values.len() ==> (#[trigger] values[j]).0 == "cpu"@ || values[j].0
            == "compilation_mode"@ {
        if seqs::first(values, p) is Some {
            let k = choose|k: int| seqs::first_where(values, p, k);
            assert(seqs::first_where(values, p, k));
            assert(values[k].0 == "cpu"@ || values[k].0 == "compilation_mode"@);
        }
    }
}

/// A `config_setting` that is answered publishes a match which is read back, and which is one exactly
/// where every constraint value of it is listed for the platform of its configuration and every value
/// of it stands there.
pub proof fn law_published_matches_are_read_back(
    ctk: ConfiguredTargetKey,
    target: TargetDecl,
    sc: SelectConfig,
    t: ConfiguredTarget,
    m: Option<(bool, Vec<String>)>,
)
    requires
        call_ensures(compute_config_match, (&ctk, &target, &sc), Ok(t)),
        call_ensures(read_config_match, (&t,), m),
    ensures
        ({
            let constraints = texts_attr(target@, "constraint_values"@);
            let values = pairs_attr(target@, "values"@);
            m matches Some((matched, _)) && (matched <==> {
                &&& forall|i: int|
                    0 <= i < constraints.len() ==> (ctk@.configuration matches Some(c)
                        && platform_lists(sc, c, #[trigger] constraints[i]))
                &&& forall|i: int|
                    0 <= i < values.len() ==> (ctk@.configuration matches Some(c)
                        && value_stands(sc, c, #[trigger] values[i]))
            })
        }),
{
    let r = Ok::<ConfiguredTarget, Error>(t);
    assert(error::outcome(r) == config_match(ctk@, target@, sc));
    law_every_condition_has_to_hold(ctk@, target@, sc);
}

} // verus!
