//! What metrics clients are asked to send, and which clients.

use crate::configs;
use crate::configs::apply_changes;
use crate::error;
use crate::error::{ControlError, ControlErrorView};
use crate::patterns;
use crate::patterns::{pattern_error, pattern_matches};
use crate::sorted_map;
use crate::sorted_map::{Duplicate, SortedMap};
use crate::text::{join_texts, same_text};
use crate::text_parts;
use crate::text_parts::{parse_i32, split_list, split_text, trim};
use vstd::prelude::*;

verus! {

pub const CLIENT_METRICS_METRICS: &'static str = "metrics";

pub const CLIENT_METRICS_INTERVAL_MS: &'static str = "interval.ms";

pub const CLIENT_METRICS_MATCH: &'static str = "match";

pub const CLIENT_METRICS_DEFAULT_INTERVAL_MS: i32 = 300_000;

pub const CLIENT_METRICS_MIN_INTERVAL_MS: i32 = 100;

pub const CLIENT_METRICS_MAX_INTERVAL_MS: i32 = 3_600_000;

pub const CLIENT_INSTANCE_ID: &'static str = "client_instance_id";

pub const CLIENT_ID: &'static str = "client_id";

pub const CLIENT_SOFTWARE_NAME: &'static str = "client_software_name";

pub const CLIENT_SOFTWARE_VERSION: &'static str = "client_software_version";

pub const CLIENT_SOURCE_ADDRESS: &'static str = "client_source_address";

pub const CLIENT_SOURCE_PORT: &'static str = "client_source_port";

/// A request for metrics, under a name.
pub struct ClientMetricSubscription {
    pub name: String,
    pub configs: SortedMap<String, String>,
}

/// The model of [`ClientMetricSubscription`].
pub struct ClientMetricSubscriptionView {
    pub name: Seq<char>,
    pub configs: Map<Seq<char>, Seq<char>>,
}

impl DeepView for ClientMetricSubscription {
    type V = ClientMetricSubscriptionView;

    open spec fn deep_view(&self) -> ClientMetricSubscriptionView {
        ClientMetricSubscriptionView {
            name: self.name@,
            configs: self.configs.deep_view(),
        }
    }
}

impl Duplicate for ClientMetricSubscription {
    fn duplicate(&self) -> (r: Self) {
        ClientMetricSubscription {
            name: self.name.clone(),
            configs: self.configs.duplicate(),
        }
    }
}

/// Changes to a subscription: nothing removes a setting, a value sets it.
pub struct ClientMetricConfigAlteration {
    pub name: String,
    pub ops: SortedMap<String, Option<String>>,
}

/// The model of [`ClientMetricConfigAlteration`].
pub struct ClientMetricConfigAlterationView {
    pub name: Seq<char>,
    pub ops: Map<Seq<char>, Option<Seq<char>>>,
}

impl DeepView for ClientMetricConfigAlteration {
    type V = ClientMetricConfigAlterationView;

    open spec fn deep_view(&self) -> ClientMetricConfigAlterationView {
        ClientMetricConfigAlterationView {
            name: self.name@,
            ops: self.ops.deep_view(),
        }
    }
}

/// Whether a subscription can have a setting of that name.
pub open spec fn is_config_key(key: Seq<char>) -> bool {
    key == CLIENT_METRICS_METRICS@ || key == CLIENT_METRICS_INTERVAL_MS@ || key == CLIENT_METRICS_MATCH@
}

/// Whether clients can be told apart by an attribute of that name.
pub open spec fn is_match_key(name: Seq<char>) -> bool {
    name == CLIENT_INSTANCE_ID@ || name == CLIENT_ID@ || name == CLIENT_SOFTWARE_NAME@ || name == CLIENT_SOFTWARE_VERSION@ || name
        == CLIENT_SOURCE_ADDRESS@ || name == CLIENT_SOURCE_PORT@
}

/// The verdict on a subscription's name.
pub open spec fn name_verdict(name: Seq<char>) -> Result<(), ControlErrorView> {
    if name.len() == 0 {
        Err(ControlErrorView::InvalidRequest("client metrics subscription name cannot be empty"@))
    } else {
        Ok(())
    }
}

/// The verdict on the first name of a list that no setting has.
pub open spec fn keys_verdict(keys: Seq<Seq<char>>) -> Result<(), ControlErrorView>
    decreases keys.len(),
{
    if keys.len() == 0 {
        Ok(())
    } else {
        match keys_verdict(keys.drop_last()) {
            Err(refusal) => Err(refusal),
            Ok(_) => if is_config_key(keys.last()) {
                Ok(())
            } else {
                Err(ControlErrorView::InvalidRequest("unknown client metrics configuration "@ + keys.last()))
            },
        }
    }
}

/// The verdict on the interval at which metrics are to be sent.
pub open spec fn interval_verdict(configs: Map<Seq<char>, Seq<char>>) -> Result<(), ControlErrorView> {
    if !configs.contains_key(CLIENT_METRICS_INTERVAL_MS@) {
        Ok(())
    } else {
        match text_parts::parsed_i32(configs[CLIENT_METRICS_INTERVAL_MS@]) {
            None => Err(ControlErrorView::InvalidRequest("client metrics configuration interval.ms must be an integer"@)),
            Some(interval) => if CLIENT_METRICS_MIN_INTERVAL_MS <= interval <= CLIENT_METRICS_MAX_INTERVAL_MS {
                Ok(())
            } else {
                Err(
                    ControlErrorView::InvalidRequest(
                        "client metrics configuration interval.ms must be between 100 and 3600000"@,
                    ),
                )
            },
        }
    }
}

/// What an entry of a matching rule asks: an attribute, and the pattern to be found in it.
pub open spec fn entry_rule(entry: Seq<char>) -> Option<(Seq<char>, Seq<char>)> {
    let parts = text_parts::pieces(entry, '=');
    if parts.len() == 2 && is_match_key(text_parts::trimmed(parts[0])) {
        Some((text_parts::trimmed(parts[0]), text_parts::trimmed(parts[1])))
    } else {
        None
    }
}

/// What the entries of a matching rule ask, given which of their patterns do not compile, or the
/// first entry that asks nothing.
pub open spec fn rules_of(entries: Seq<Seq<char>>, broken: Seq<bool>) -> Result<Seq<(Seq<char>, Seq<char>)>, ControlErrorView>
    decreases entries.len(),
{
    if entries.len() == 0 {
        Ok(Seq::empty())
    } else {
        let n = entries.len() - 1;
        match rules_of(entries.drop_last(), broken) {
            Err(refusal) => Err(refusal),
            Ok(rules) => if entry_rule(entries[n]) is None || broken[n] {
                Err(ControlErrorView::InvalidRequest("illegal client matching pattern "@ + entries[n]))
            } else {
                Ok(rules.push(entry_rule(entries[n])->0))
            },
        }
    }
}

/// Which entries of a matching rule have a pattern that does not compile.
pub open spec fn broken_entries(entries: Seq<Seq<char>>) -> Seq<bool> {
    Seq::new(
        entries.len(),
        |i: int| entry_rule(entries[i]) is Some && patterns::regex_error((entry_rule(entries[i])->0).1) is Some,
    )
}

/// The entries of a subscription's matching rule.
pub open spec fn match_entries(configs: Map<Seq<char>, Seq<char>>) -> Seq<Seq<char>> {
    if configs.contains_key(CLIENT_METRICS_MATCH@) {
        text_parts::list_items(configs[CLIENT_METRICS_MATCH@])
    } else {
        Seq::empty()
    }
}

/// The verdict on a subscription, given which entries of its matching rule have a pattern that does
/// not compile.
pub open spec fn subscription_verdict(subscription: ClientMetricSubscriptionView, broken: Seq<bool>) -> Result<(), ControlErrorView> {
    match name_verdict(subscription.name) {
        Err(refusal) => Err(refusal),
        Ok(_) => match keys_verdict(sorted_map::sorted_keys::<String>(subscription.configs.dom())) {
            Err(refusal) => Err(refusal),
            Ok(_) => match interval_verdict(subscription.configs) {
                Err(refusal) => Err(refusal),
                Ok(_) => match rules_of(match_entries(subscription.configs), broken) {
                    Err(refusal) => Err(refusal),
                    Ok(_) => Ok(()),
                },
            },
        },
    }
}

/// Whether a client has every attribute that the rules ask for, with the pattern found in it.
pub open spec fn rules_hold(rules: Seq<(Seq<char>, Seq<char>)>, attributes: Map<Seq<char>, Seq<char>>, found: Seq<bool>) -> bool {
    forall|i: int| 0 <= i < rules.len() ==> attributes.contains_key((#[trigger] rules[i]).0) && found[i]
}

/// For each rule, whether its pattern is found in the client's attribute.
pub open spec fn patterns_found(rules: Seq<(Seq<char>, Seq<char>)>, attributes: Map<Seq<char>, Seq<char>>) -> Seq<bool> {
    Seq::new(
        rules.len(),
        |i: int| attributes.contains_key(rules[i].0) && patterns::regex_matches(rules[i].1, attributes[rules[i].0]),
    )
}

/// Whether a subscription is for a client.
pub open spec fn is_for(subscription: ClientMetricSubscriptionView, attributes: Map<Seq<char>, Seq<char>>) -> bool {
    let entries = match_entries(subscription.configs);
    match rules_of(entries, broken_entries(entries)) {
        Err(_) => false,
        Ok(rules) => rules_hold(rules, attributes, patterns_found(rules, attributes)),
    }
}

/// A subscription after changes that name no unknown setting: none is left where no setting is.
pub open spec fn proposed(
    current: Option<ClientMetricSubscriptionView>,
    alteration: ClientMetricConfigAlterationView,
) -> Option<ClientMetricSubscriptionView> {
    let before = match current {
        Some(subscription) => subscription.configs,
        None => Map::empty(),
    };
    let after = configs::changed(before, alteration.ops);
    if after == Map::<Seq<char>, Seq<char>>::empty() {
        None
    } else {
        Some(ClientMetricSubscriptionView { name: alteration.name, configs: after })
    }
}

/// What changes to a subscription lead to.
pub open spec fn altered(
    current: Option<ClientMetricSubscriptionView>,
    alteration: ClientMetricConfigAlterationView,
) -> Result<Option<ClientMetricSubscriptionView>, ControlErrorView> {
    match name_verdict(alteration.name) {
        Err(refusal) => Err(refusal),
        Ok(_) => match keys_verdict(sorted_map::sorted_keys::<String>(alteration.ops.dom())) {
            Err(refusal) => Err(refusal),
            Ok(_) => match proposed(current, alteration) {
                None => Ok(None),
                Some(subscription) => match subscription_verdict(
                    subscription,
                    broken_entries(match_entries(subscription.configs)),
                ) {
                    Err(refusal) => Err(refusal),
                    Ok(_) => Ok(Some(subscription)),
                },
            },
        },
    }
}

fn validate_name(name: &str) -> (r: Result<(), ControlError>)
    ensures
        error::outcome(r) == name_verdict(name@),
{
    if name.is_empty() {
        Err(ControlError::InvalidRequest("client metrics subscription name cannot be empty".to_owned()))
    } else {
        Ok(())
    }
}

fn validate_key(key: &str) -> (r: Result<(), ControlError>)
    ensures
        error::outcome(r) == (if is_config_key(key@) {
            Ok::<(), ControlErrorView>(())
        } else {
            Err(ControlErrorView::InvalidRequest("unknown client metrics configuration "@ + key@))
        }),
{
    if same_text(key, CLIENT_METRICS_METRICS) || same_text(key, CLIENT_METRICS_INTERVAL_MS) || same_text(key, CLIENT_METRICS_MATCH) {
        Ok(())
    } else {
        Err(ControlError::InvalidRequest(join_texts("unknown client metrics configuration ", key)))
    }
}

proof fn refused_keys_stay(keys: Seq<Seq<char>>, n: int)
    requires
        0 <= n <= keys.len(),
        keys_verdict(keys.take(n)) is Err,
    ensures
        keys_verdict(keys) == keys_verdict(keys.take(n)),
    decreases keys.len() - n,
{
    if n < keys.len() {
        sorted_map::prefix_grows(keys, n);
        refused_keys_stay(keys, n + 1);
    } else {
        assert(keys.take(n) =~= keys);
    }
}

fn validate_keys<V: DeepView>(settings: &SortedMap<String, V>) -> (r: Result<(), ControlError>)
    ensures
        error::outcome(r) == keys_verdict(sorted_map::sorted_keys::<String>(settings.deep_view().dom())),
{
    let keys = settings.keys();
    let ghost all = keys.deep_view();
    proof {
        sorted_map::sorted_keys_are::<String>(all, settings.deep_view().dom());
    }
    let mut i: usize = 0;
    assert(all.take(0) =~= Seq::empty());
    while i < keys.len()
        invariant
            i <= keys@.len(),
            all == keys.deep_view(),
            all == sorted_map::sorted_keys::<String>(settings.deep_view().dom()),
            keys_verdict(all.take(i as int)) is Ok,
        decreases keys@.len() - i,
    {
        proof {
            assert(all[i as int] == keys@[i as int].deep_view());
            sorted_map::prefix_grows(all, i as int);
        }
        match validate_key(keys[i].as_str()) {
            Ok(_) => {},
            Err(refusal) => {
                proof {
                    refused_keys_stay(all, i + 1);
                }
                return Err(refusal);
            },
        }
        i = i + 1;
    }
    assert(all.take(i as int) =~= all);
    Ok(())
}

fn read_entry(entry: &str) -> (r: Option<(String, String)>)
    ensures
        r.deep_view() == entry_rule(entry@),
{
    let parts = split_text(entry, '=');
    let ghost all = parts.deep_view();
    if parts.len() != 2 {
        return None;
    }
    assert(all[0] == parts@[0]@ && all[1] == parts@[1]@);
    let name = trim(parts[0].as_str());
    if same_text(name.as_str(), CLIENT_INSTANCE_ID) || same_text(name.as_str(), CLIENT_ID) || same_text(name.as_str(), CLIENT_SOFTWARE_NAME)
        || same_text(name.as_str(), CLIENT_SOFTWARE_VERSION) || same_text(name.as_str(), CLIENT_SOURCE_ADDRESS) || same_text(
        name.as_str(),
        CLIENT_SOURCE_PORT,
    ) {
        Some((name, trim(parts[1].as_str())))
    } else {
        None
    }
}

proof fn refused_rules_stay(entries: Seq<Seq<char>>, broken: Seq<bool>, n: int)
    requires
        0 <= n <= entries.len(),
        rules_of(entries.take(n), broken) is Err,
    ensures
        rules_of(entries, broken) == rules_of(entries.take(n), broken),
    decreases entries.len() - n,
{
    if n < entries.len() {
        sorted_map::prefix_grows(entries, n);
        refused_rules_stay(entries, broken, n + 1);
    } else {
        assert(entries.take(n) =~= entries);
    }
}

/// Reads the entries of a matching rule, given which of their patterns do not compile.
pub fn read_rules(entries: &Vec<String>, broken: &Vec<bool>) -> (r: Result<Vec<(String, String)>, ControlError>)
    requires
        broken@.len() == entries@.len(),
    ensures
        error::outcome(r) == rules_of(entries.deep_view(), broken@),
{
    let ghost all = entries.deep_view();
    let mut rules: Vec<(String, String)> = Vec::new();
    let mut i: usize = 0;
    assert(all.take(0) =~= Seq::empty());
    assert(rules.deep_view() =~= Seq::empty());
    while i < entries.len()
        invariant
            i <= entries@.len(),
            all == entries.deep_view(),
            broken@.len() == entries@.len(),
            rules_of(all.take(i as int), broken@) == Ok::<Seq<(Seq<char>, Seq<char>)>, ControlErrorView>(rules.deep_view()),
        decreases entries@.len() - i,
    {
        proof {
            assert(all[i as int] == entries@[i as int]@);
            sorted_map::prefix_grows(all, i as int);
        }
        match read_entry(entries[i].as_str()) {
            Some(rule) if !broken[i] => {
                let ghost before = rules.deep_view();
                rules.push(rule);
                assert(rules.deep_view() =~= before.push(rule.deep_view()));
            },
            _ => {
                proof {
                    refused_rules_stay(all, broken@, i + 1);
                }
                return Err(ControlError::InvalidRequest(join_texts("illegal client matching pattern ", entries[i].as_str())));
            },
        }
        i = i + 1;
    }
    assert(all.take(i as int) =~= all);
    Ok(rules)
}

fn find_broken(entries: &Vec<String>) -> (r: Vec<bool>)
    ensures
        r@ == broken_entries(entries.deep_view()),
{
    let ghost all = entries.deep_view();
    let mut r: Vec<bool> = Vec::new();
    let mut i: usize = 0;
    while i < entries.len()
        invariant
            i <= entries@.len(),
            all == entries.deep_view(),
            r@.len() == i,
            forall|j: int| 0 <= j < i ==> #[trigger] r@[j] == broken_entries(all)[j],
        decreases entries@.len() - i,
    {
        assert(all[i as int] == entries@[i as int]@);
        let is_broken = match read_entry(entries[i].as_str()) {
            Some(rule) => pattern_error(rule.1.as_str()).is_some(),
            None => false,
        };
        r.push(is_broken);
        i = i + 1;
    }
    assert(r@ =~= broken_entries(all));
    r
}

/// Whether a client has every attribute that the rules ask for, given for each rule whether its
/// pattern was found in that attribute.
pub fn holds_with(rules: &Vec<(String, String)>, attributes: &SortedMap<String, String>, found: &Vec<bool>) -> (r: bool)
    requires
        found@.len() == rules@.len(),
    ensures
        r == rules_hold(rules.deep_view(), attributes.deep_view(), found@),
{
    let ghost all = rules.deep_view();
    let mut i: usize = 0;
    while i < rules.len()
        invariant
            i <= rules@.len(),
            all == rules.deep_view(),
            found@.len() == rules@.len(),
            forall|j: int| 0 <= j < i ==> attributes.deep_view().contains_key((#[trigger] all[j]).0) && found@[j],
        decreases rules@.len() - i,
    {
        assert(all[i as int] == rules@[i as int].deep_view());
        assert(all[i as int].0 == rules@[i as int].0.deep_view());
        if !attributes.contains_key(&rules[i].0) {
            return false;
        }
        if !found[i] {
            return false;
        }
        assert forall|j: int| 0 <= j < i + 1 implies attributes.deep_view().contains_key((#[trigger] all[j]).0) && found@[j] by {
            if j == i {
                assert(attributes.deep_view().contains_key(all[i as int].0));
                assert(found@[i as int]);
            } else {
                assert(0 <= j < i);
                assert(attributes.deep_view().contains_key(all[j].0));
                assert(found@[j]);
            }
        }
        i = i + 1;
    }
    true
}

fn find_patterns(rules: &Vec<(String, String)>, attributes: &SortedMap<String, String>) -> (r: Vec<bool>)
    ensures
        r@ == patterns_found(rules.deep_view(), attributes.deep_view()),
{
    let ghost all = rules.deep_view();
    let mut r: Vec<bool> = Vec::new();
    let mut i: usize = 0;
    while i < rules.len()
        invariant
            i <= rules@.len(),
            all == rules.deep_view(),
            r@.len() == i,
            forall|j: int| 0 <= j < i ==> #[trigger] r@[j] == patterns_found(all, attributes.deep_view())[j],
        decreases rules@.len() - i,
    {
        assert(all[i as int] == rules@[i as int].deep_view());
        let found = match attributes.get(&rules[i].0) {
            Some(attribute) => pattern_matches(rules[i].1.as_str(), attribute.as_str()),
            None => false,
        };
        r.push(found);
        i = i + 1;
    }
    assert(r@ =~= patterns_found(all, attributes.deep_view()));
    r
}

impl ClientMetricSubscription {
    /// The entries of the matching rule.
    pub fn match_list(&self) -> (r: Vec<String>)
        ensures
            r.deep_view() == match_entries(self.deep_view().configs),
    {
        match self.configs.get(&CLIENT_METRICS_MATCH.to_owned()) {
            Some(value) => split_list(value.as_str()),
            None => {
                let r: Vec<String> = Vec::new();
                assert(r.deep_view() =~= Seq::empty());
                r
            },
        }
    }

    /// Judges the subscription, given which entries of its matching rule have a pattern that does not
    /// compile.
    pub fn validate_with(&self, broken: &Vec<bool>) -> (r: Result<(), ControlError>)
        requires
            broken@.len() == match_entries(self.deep_view().configs).len(),
        ensures
            error::outcome(r) == subscription_verdict(self.deep_view(), broken@),
    {
        validate_name(self.name.as_str())?;
        validate_keys(&self.configs)?;
        if let Some(value) = self.configs.get(&CLIENT_METRICS_INTERVAL_MS.to_owned()) {
            match parse_i32(value.as_str()) {
                None => return Err(
                    ControlError::InvalidRequest("client metrics configuration interval.ms must be an integer".to_owned()),
                ),
                Some(interval) => {
                    if interval < CLIENT_METRICS_MIN_INTERVAL_MS || interval > CLIENT_METRICS_MAX_INTERVAL_MS {
                        return Err(
                            ControlError::InvalidRequest(
                                "client metrics configuration interval.ms must be between 100 and 3600000".to_owned(),
                            ),
                        );
                    }
                },
            }
        }
        match read_rules(&self.match_list(), broken) {
            Ok(_) => Ok(()),
            Err(refusal) => Err(refusal),
        }
    }

    /// Judges the subscription.
    pub fn validate(&self) -> (r: Result<(), ControlError>)
        ensures
            error::outcome(r) == subscription_verdict(self.deep_view(), broken_entries(match_entries(self.deep_view().configs))),
    {
        let broken = find_broken(&self.match_list());
        self.validate_with(&broken)
    }

    /// The metrics that are asked for.
    pub fn metrics(&self) -> (r: Vec<String>)
        ensures
            r.deep_view() == (if self.deep_view().configs.contains_key(CLIENT_METRICS_METRICS@) {
                text_parts::list_items(self.deep_view().configs[CLIENT_METRICS_METRICS@])
            } else {
                Seq::empty()
            }),
    {
        match self.configs.get(&CLIENT_METRICS_METRICS.to_owned()) {
            Some(value) => split_list(value.as_str()),
            None => {
                let r: Vec<String> = Vec::new();
                assert(r.deep_view() =~= Seq::empty());
                r
            },
        }
    }

    /// The interval at which metrics are to be sent.
    pub fn push_interval_ms(&self) -> (r: i32)
        ensures
            r == (match text_parts::parsed_i32(self.deep_view().configs[CLIENT_METRICS_INTERVAL_MS@]) {
                Some(interval) if self.deep_view().configs.contains_key(CLIENT_METRICS_INTERVAL_MS@) => interval,
                _ => CLIENT_METRICS_DEFAULT_INTERVAL_MS as int,
            }),
    {
        match self.configs.get(&CLIENT_METRICS_INTERVAL_MS.to_owned()) {
            Some(value) => match parse_i32(value.as_str()) {
                Some(interval) => interval,
                None => CLIENT_METRICS_DEFAULT_INTERVAL_MS,
            },
            None => CLIENT_METRICS_DEFAULT_INTERVAL_MS,
        }
    }

    /// Whether the subscription is for a client with these attributes.
    pub fn matches(&self, attributes: &SortedMap<String, String>) -> (r: bool)
        ensures
            r == is_for(self.deep_view(), attributes.deep_view()),
    {
        let entries = self.match_list();
        let broken = find_broken(&entries);
        match read_rules(&entries, &broken) {
            Ok(rules) => {
                let found = find_patterns(&rules, attributes);
                holds_with(&rules, attributes, &found)
            },
            Err(_) => false,
        }
    }
}

/// Makes changes to a subscription.
pub fn apply_alteration(
    current: Option<ClientMetricSubscription>,
    alteration: &ClientMetricConfigAlteration,
) -> (r: Result<Option<ClientMetricSubscription>, ControlError>)
    ensures
        error::outcome(r) == altered(current.deep_view(), alteration.deep_view()),
{
    validate_name(alteration.name.as_str())?;
    validate_keys(&alteration.ops)?;
    let mut settings = match current {
        Some(subscription) => subscription.configs,
        None => SortedMap::new(),
    };
    apply_changes(&mut settings, &alteration.ops);
    if settings.is_empty() {
        assert(settings.deep_view() =~= Map::empty());
        return Ok(None);
    }
    let subscription = ClientMetricSubscription { name: alteration.name.clone(), configs: settings };
    subscription.validate()?;
    Ok(Some(subscription))
}

/// The stored subscriptions, by name.
pub struct ClientMetrics {
    pub subscriptions: SortedMap<String, ClientMetricSubscription>,
}

impl DeepView for ClientMetrics {
    type V = Map<Seq<char>, ClientMetricSubscriptionView>;

    open spec fn deep_view(&self) -> Map<Seq<char>, ClientMetricSubscriptionView> {
        self.subscriptions.deep_view()
    }
}

/// The subscription of a name.
pub open spec fn named(subscriptions: Map<Seq<char>, ClientMetricSubscriptionView>, name: Seq<char>) -> Option<ClientMetricSubscriptionView> {
    if subscriptions.contains_key(name) {
        Some(subscriptions[name])
    } else {
        None
    }
}

/// What a request to change a subscription does.
pub open spec fn subscriptions_altered(
    subscriptions: Map<Seq<char>, ClientMetricSubscriptionView>,
    alteration: ClientMetricConfigAlterationView,
    validate_only: bool,
) -> (Map<Seq<char>, ClientMetricSubscriptionView>, Result<(), ControlErrorView>) {
    match altered(named(subscriptions, alteration.name), alteration) {
        Err(refusal) => (subscriptions, Err(refusal)),
        Ok(after) => (
            if validate_only {
                subscriptions
            } else {
                match after {
                    Some(subscription) => subscriptions.insert(alteration.name, subscription),
                    None => subscriptions.remove(alteration.name),
                }
            },
            Ok(()),
        ),
    }
}

impl ClientMetrics {
    pub fn new() -> (r: Self)
        ensures
            r.deep_view() == Map::<Seq<char>, ClientMetricSubscriptionView>::empty(),
    {
        ClientMetrics { subscriptions: SortedMap::new() }
    }

    /// Lists the subscriptions by name.
    pub fn client_metric_subscriptions(&self) -> (r: Vec<ClientMetricSubscription>)
        ensures
            r.deep_view() == sorted_map::sorted_keys::<String>(self.deep_view().dom()).map_values(|name: Seq<char>| self.deep_view()[name]),
    {
        let names = self.subscriptions.keys();
        let ghost all = names.deep_view();
        let ghost m = self.subscriptions.deep_view();
        proof {
            sorted_map::sorted_keys_are::<String>(all, m.dom());
        }
        let mut r: Vec<ClientMetricSubscription> = Vec::new();
        let mut i: usize = 0;
        while i < names.len()
            invariant
                i <= names@.len(),
                all == names.deep_view(),
                m == self.subscriptions.deep_view(),
                all.to_set() == m.dom(),
                r@.len() == i,
                forall|j: int| 0 <= j < i ==> (#[trigger] r@[j]).deep_view() == m[all[j]],
            decreases names@.len() - i,
        {
            assert(all[i as int] == names@[i as int].deep_view());
            assert(all.to_set().contains(all[i as int]));
            r.push(self.subscriptions.get(&names[i]).unwrap().duplicate());
            i = i + 1;
        }
        assert(r.deep_view() =~= all.map_values(|name: Seq<char>| m[name]));
        r
    }

    /// Finds a subscription.
    pub fn client_metric_subscription(&self, name: &str) -> (r: Option<ClientMetricSubscription>)
        ensures
            r.deep_view() == named(self.deep_view(), name@),
    {
        match self.subscriptions.get(&name.to_owned()) {
            Some(subscription) => Some(subscription.duplicate()),
            None => None,
        }
    }

    /// Changes a subscription, unless the request only asks whether it could.
    pub fn alter_client_metric_subscription(&mut self, alteration: &ClientMetricConfigAlteration, validate_only: bool) -> (r: Result<
        (),
        ControlError,
    >)
        ensures
            (final(self).deep_view(), error::outcome(r)) == subscriptions_altered(
                old(self).deep_view(),
                alteration.deep_view(),
                validate_only,
            ),
    {
        let current = self.client_metric_subscription(alteration.name.as_str());
        let after = apply_alteration(current, alteration)?;
        if validate_only {
            return Ok(());
        }
        match after {
            Some(subscription) => {
                self.subscriptions.insert(alteration.name.clone(), subscription);
            },
            None => {
                self.subscriptions.remove(&alteration.name);
            },
        }
        Ok(())
    }
}

/// Every stored subscription has the name under which it is stored, has settings, and is valid.
pub open spec fn sound(subscriptions: Map<Seq<char>, ClientMetricSubscriptionView>) -> bool {
    forall|name: Seq<char>| #[trigger]
        subscriptions.contains_key(name) ==> subscriptions[name].name == name && subscriptions[name].configs != Map::<
            Seq<char>,
            Seq<char>,
        >::empty() && subscription_verdict(subscriptions[name], broken_entries(match_entries(subscriptions[name].configs))) is Ok
}

/// No change of a subscription, accepted or refused, makes a stored subscription invalid.
pub proof fn alterations_keep_subscriptions_sound(
    subscriptions: Map<Seq<char>, ClientMetricSubscriptionView>,
    alteration: ClientMetricConfigAlterationView,
    validate_only: bool,
)
    requires
        sound(subscriptions),
    ensures
        sound(subscriptions_altered(subscriptions, alteration, validate_only).0),
{
}

/// The interval of a valid subscription lies within the limits.
pub proof fn valid_intervals_are_within_limits(subscription: ClientMetricSubscriptionView, broken: Seq<bool>)
    requires
        subscription_verdict(subscription, broken) is Ok,
        subscription.configs.contains_key(CLIENT_METRICS_INTERVAL_MS@),
    ensures
        text_parts::parsed_i32(subscription.configs[CLIENT_METRICS_INTERVAL_MS@]) is Some,
        CLIENT_METRICS_MIN_INTERVAL_MS <= text_parts::parsed_i32(subscription.configs[CLIENT_METRICS_INTERVAL_MS@])->0
            <= CLIENT_METRICS_MAX_INTERVAL_MS,
{
}

/// Removing every setting of a subscription removes the subscription.
pub proof fn without_settings_nothing_is_left(
    subscriptions: Map<Seq<char>, ClientMetricSubscriptionView>,
    alteration: ClientMetricConfigAlterationView,
)
    requires
        subscriptions.contains_key(alteration.name),
        forall|key: Seq<char>|
            subscriptions[alteration.name].configs.contains_key(key) ==> #[trigger] alteration.ops.contains_key(key),
        forall|key: Seq<char>| #[trigger] alteration.ops.contains_key(key) ==> alteration.ops[key] is None,
        name_verdict(alteration.name) is Ok,
        keys_verdict(sorted_map::sorted_keys::<String>(alteration.ops.dom())) is Ok,
    ensures
        subscriptions_altered(subscriptions, alteration, false) == (
            subscriptions.remove(alteration.name),
            Ok::<(), ControlErrorView>(()),
        ),
{
    let before = subscriptions[alteration.name].configs;
    assert(configs::changed(before, alteration.ops) =~= Map::empty());
}

} // verus!
