//! What changes of settings, limits, credentials and topics bring about.

use crate::client_metrics;
use crate::client_metrics::{ClientMetricConfigAlterationView, ClientMetricSubscriptionView};
use crate::client_quotas;
use crate::client_quotas::{ClientQuotaAlterationView, ClientQuotaEntityView, ClientQuotasView};
use crate::configs;
use crate::configs::ConfigsView;
use crate::error::ControlErrorView;
use crate::log_types::{LogStateView, TopicConfigView};
use crate::numbers;
use crate::partition::{PartitionKeyView, TopicInfoView};
use crate::patterns;
use crate::scram;
use crate::scram::{CredentialsView, ScramCredentialAlterationView, ScramCredentialView};
use crate::sorted_map;
use crate::text;
use crate::text_parts;
use crate::topics;
use vstd::prelude::*;

verus! {

/// The value of a setting of a group.
pub open spec fn group_value(configs: ConfigsView, group: Seq<char>, key: Seq<char>) -> Option<Seq<char>> {
    if configs.group_configs.contains_key(group) && configs.group_configs[group].contains_key(key) {
        Some(configs.group_configs[group][key])
    } else {
        None
    }
}

/// The value of a setting of the brokers.
pub open spec fn broker_value(configs: ConfigsView, key: Seq<char>) -> Option<Seq<char>> {
    if configs.broker_configs.contains_key(key) {
        Some(configs.broker_configs[key])
    } else {
        None
    }
}

/// After a change a setting has the value that the change gives it, or none; one that the change does not
/// name has the value it had, as has every setting of other groups and of the brokers. A trial changes
/// nothing.
pub proof fn settings_have_the_values_given(
    configs: ConfigsView,
    group: Seq<char>,
    changes: Map<Seq<char>, Option<Seq<char>>>,
    other: Seq<char>,
    key: Seq<char>,
)
    ensures
        ({
            let after = configs::group_altered(configs, group, changes, false);
            let then = configs::broker_altered(configs, changes, false);
            &&& changes.contains_key(key) ==> group_value(after, group, key) == changes[key] && broker_value(then, key) == changes[key]
            &&& !changes.contains_key(key) ==> group_value(after, group, key) == group_value(configs, group, key) && broker_value(then, key)
                == broker_value(configs, key)
            &&& other != group ==> group_value(after, other, key) == group_value(configs, other, key)
            &&& group_value(then, group, key) == group_value(configs, group, key)
            &&& broker_value(after, key) == broker_value(configs, key)
            &&& configs::group_altered(configs, group, changes, true) == configs
            &&& configs::broker_altered(configs, changes, true) == configs
        }),
{
    let settings = configs::changed(configs::group_settings(configs, group), changes);
    if settings == Map::<Seq<char>, Seq<char>>::empty() {
        assert(!settings.contains_key(key));
    }
}

/// The limit of an entity.
pub open spec fn limit_value(quotas: ClientQuotasView, entity: ClientQuotaEntityView, key: Seq<char>) -> Option<u64> {
    if quotas.contains_key(entity) && quotas[entity].contains_key(key) {
        Some(quotas[entity][key])
    } else {
        None
    }
}

/// After a list of changes a limit has what the last change that names it gives it, or none; one that no
/// change names is what it was.
pub proof fn limits_have_the_values_given(
    quotas: ClientQuotasView,
    alterations: Seq<ClientQuotaAlterationView>,
    entity: ClientQuotaEntityView,
    key: Seq<char>,
    i: int,
)
    requires
        forall|j: int|
            i < j < alterations.len() ==> !((#[trigger] alterations[j]).entity == entity && alterations[j].ops.contains_key(key)),
        -1 <= i < alterations.len(),
        i >= 0 ==> alterations[i].entity == entity && alterations[i].ops.contains_key(key),
    ensures
        limit_value(client_quotas::all_altered(quotas, alterations), entity, key) == if i >= 0 {
            alterations[i].ops[key]
        } else {
            limit_value(quotas, entity, key)
        },
    decreases alterations.len(),
{
    if alterations.len() > 0 {
        let last = alterations.len() - 1;
        let rest = alterations.drop_last();
        let before = client_quotas::all_altered(quotas, rest);
        let change = alterations.last();
        assert(change == alterations[last]);
        let limits = configs::changed(client_quotas::limits_of(before, change.entity), change.ops);
        if limits == Map::<Seq<char>, u64>::empty() {
            assert(!limits.contains_key(key));
        }
        if i < last {
            assert forall|j: int| i < j < rest.len() implies !((#[trigger] rest[j]).entity == entity && rest[j].ops.contains_key(key)) by {
                assert(rest[j] == alterations[j]);
            }
            limits_have_the_values_given(quotas, rest, entity, key, i);
            assert(!(alterations[last].entity == entity && alterations[last].ops.contains_key(key)));
        }
    }
}

/// Whether a change is one of some user's credential for a mechanism.
pub open spec fn concerns(alteration: ScramCredentialAlterationView, user: Seq<char>, mechanism: i8) -> bool {
    match alteration {
        ScramCredentialAlterationView::Upsert(credential) => credential.user == user && credential.mechanism == mechanism,
        ScramCredentialAlterationView::Delete { user: u, mechanism: m } => u == user && m == mechanism,
    }
}

/// After a list of changes a credential is what the last change that concerns it makes of it: the one that
/// was put, or none; and where no change concerns it, it is what it was.
pub proof fn credentials_are_what_was_put(
    credentials: CredentialsView,
    alterations: Seq<ScramCredentialAlterationView>,
    user: Seq<char>,
    mechanism: i8,
    i: int,
)
    requires
        -1 <= i < alterations.len(),
        forall|j: int| i < j < alterations.len() ==> !concerns(#[trigger] alterations[j], user, mechanism),
        i >= 0 ==> concerns(alterations[i], user, mechanism),
    ensures
        ({
            let after = scram::altered(credentials, alterations).0;
            let key = (user, mechanism);
            &&& i < 0 ==> after.contains_key(key) == credentials.contains_key(key) && (credentials.contains_key(key) ==> after[key]
                == credentials[key])
            &&& i >= 0 ==> match alterations[i] {
                ScramCredentialAlterationView::Upsert(credential) => after.contains_key(key) && after[key] == credential,
                ScramCredentialAlterationView::Delete { user: u, mechanism: m } => !after.contains_key(key),
            }
        }),
    decreases alterations.len(),
{
    if alterations.len() > 0 {
        let last = alterations.len() - 1;
        let rest = alterations.drop_last();
        assert(alterations.last() == alterations[last]);
        if i < last {
            assert forall|j: int| i < j < rest.len() implies !concerns(#[trigger] rest[j], user, mechanism) by {
                assert(rest[j] == alterations[j]);
            }
            credentials_are_what_was_put(credentials, rest, user, mechanism, i);
            assert(!concerns(alterations[last], user, mechanism));
        }
    }
}

/// Of whom it is told that a credential was to be deleted that was not there: just of those users.
pub proof fn missing_credentials_are_told(credentials: CredentialsView, alterations: Seq<ScramCredentialAlterationView>, user: Seq<char>)
    ensures
        scram::altered(credentials, alterations).1.contains_key(user) <==> exists|i: int, mechanism: i8|
            #![trigger alterations[i], alterations.take(i), concerns(alterations[i], user, mechanism)]
            0 <= i < alterations.len() && alterations[i] is Delete && concerns(alterations[i], user, mechanism) && !scram::altered(
                credentials,
                alterations.take(i),
            ).0.contains_key((user, mechanism)),
    decreases alterations.len(),
{
    if alterations.len() > 0 {
        let last = alterations.len() - 1;
        let rest = alterations.drop_last();
        missing_credentials_are_told(credentials, rest, user);
        assert(alterations.last() == alterations[last]);
        assert(alterations.take(last) =~= rest);
        assert forall|i: int| 0 <= i < last implies #[trigger] rest.take(i) == alterations.take(i) && rest[i] == alterations[i] by {
            assert(rest.take(i) =~= alterations.take(i));
        }
        if scram::altered(credentials, alterations).1.contains_key(user) {
            if scram::altered(credentials, rest).1.contains_key(user) {
                let (i, mechanism) = choose|i: int, mechanism: i8|
                    #![trigger rest[i], rest.take(i), concerns(rest[i], user, mechanism)]
                    0 <= i < rest.len() && rest[i] is Delete && concerns(rest[i], user, mechanism) && !scram::altered(
                        credentials,
                        rest.take(i),
                    ).0.contains_key((user, mechanism));
                assert(rest.take(i) == alterations.take(i));
                assert(concerns(alterations[i], user, mechanism));
            } else {
                match alterations[last] {
                    ScramCredentialAlterationView::Delete { user: u, mechanism: m } => {
                        assert(concerns(alterations[last], user, m));
                    },
                    _ => {},
                }
            }
        }
        if exists|i: int, mechanism: i8|
            #![trigger alterations[i], alterations.take(i), concerns(alterations[i], user, mechanism)]
            0 <= i < alterations.len() && alterations[i] is Delete && concerns(alterations[i], user, mechanism) && !scram::altered(
                credentials,
                alterations.take(i),
            ).0.contains_key((user, mechanism)) {
            let (i, mechanism) = choose|i: int, mechanism: i8|
                #![trigger alterations[i], alterations.take(i), concerns(alterations[i], user, mechanism)]
                0 <= i < alterations.len() && alterations[i] is Delete && concerns(alterations[i], user, mechanism) && !scram::altered(
                    credentials,
                    alterations.take(i),
                ).0.contains_key((user, mechanism));
            if i < last {
                assert(rest.take(i) == alterations.take(i));
                assert(concerns(rest[i], user, mechanism));
            }
        }
    }
}

/// Which credentials are told: all of the users that are asked for, or of all users, and each once.
pub proof fn credentials_of_the_asked_are_told(credentials: CredentialsView, users: Option<Seq<Seq<char>>>, credential: ScramCredentialView)
    requires
        credentials.dom().finite(),
        scram::keyed(credentials),
    ensures
        ({
            let told = scram::described(credentials, users);
            let key = (credential.user, credential.mechanism);
            &&& told.contains(credential) <==> credentials.contains_key(key) && credentials[key] == credential && (users is None
                || users->0.contains(credential.user))
            &&& forall|i: int, j: int|
                0 <= i < j < told.len() ==> (#[trigger] told[i]).user != (#[trigger] told[j]).user || told[i].mechanism != told[j].mechanism
        }),
{
    let some = sorted_map::filtered(credentials, scram::is_asked(users));
    assert(some.dom().subset_of(credentials.dom()));
    vstd::set_lib::lemma_len_subset(some.dom(), credentials.dom());
    sorted_map::finite_sets_are_listed::<(String, i8)>(some.dom());
    let keys = sorted_map::sorted_keys::<(String, i8)>(some.dom());
    sorted_map::strictly_sorted_unique::<(String, i8)>(keys);
    let told = scram::described(credentials, users);
    let key = (credential.user, credential.mechanism);
    assert forall|i: int| 0 <= i < told.len() implies #[trigger] told[i] == credentials[keys[i]] && some.contains_key(keys[i]) && (told[i].user, told[i].mechanism)
        == keys[i] by {
        assert(keys.to_set().contains(keys[i]));
    }
    if told.contains(credential) {
        let i = choose|i: int| 0 <= i < told.len() && told[i] == credential;
        assert(keys[i] == key);
    }
    if some.contains_key(key) && credentials[key] == credential {
        assert(keys.to_set().contains(key));
        let i = choose|i: int| 0 <= i < keys.len() && keys[i] == key;
        assert(told[i] == credential);
    }
}

/// Whether an entry of a matching rule holds of a client: it names an attribute by which clients can be
/// told apart, an equals sign and a pattern, and the pattern is found in the client's attribute.
pub open spec fn holds_of(entry: Seq<char>, attributes: Map<Seq<char>, Seq<char>>) -> bool {
    let parts = text_parts::pieces(entry, '=');
    let name = text_parts::trimmed(parts[0]);
    let pattern = text_parts::trimmed(parts[1]);
    &&& parts.len() == 2
    &&& name == "client_instance_id"@ || name == "client_id"@ || name == "client_software_name"@ || name == "client_software_version"@ || name
        == "client_source_address"@ || name == "client_source_port"@
    &&& patterns::regex_error(pattern) is None
    &&& attributes.contains_key(name)
    &&& patterns::regex_matches(pattern, attributes[name])
}

proof fn rules_stand_for_entries(entries: Seq<Seq<char>>, broken: Seq<bool>)
    requires
        broken.len() >= entries.len(),
    ensures
        match client_metrics::rules_of(entries, broken) {
            Ok(rules) => rules.len() == entries.len() && forall|i: int|
                #![trigger entries[i]]
                #![trigger rules[i]]
                0 <= i < entries.len() ==> client_metrics::entry_rule(entries[i]) == Some(rules[i]) && !broken[i],
            Err(_) => exists|i: int| 0 <= i < entries.len() && (client_metrics::entry_rule(#[trigger] entries[i]) is None || broken[i]),
        },
    decreases entries.len(),
{
    if entries.len() > 0 {
        let rest = entries.drop_last();
        let last = entries.len() - 1;
        rules_stand_for_entries(rest, broken);
        assert forall|i: int| 0 <= i < last implies #[trigger] rest[i] == entries[i] by {}
        match client_metrics::rules_of(rest, broken) {
            Err(_) => {
                let i = choose|i: int| 0 <= i < rest.len() && (client_metrics::entry_rule(#[trigger] rest[i]) is None || broken[i]);
                assert(client_metrics::entry_rule(entries[i]) is None || broken[i]);
            },
            Ok(before) => {
                if client_metrics::entry_rule(entries[last]) is None || broken[last] {
                } else {
                    let rules = client_metrics::rules_of(entries, broken)->Ok_0;
                    assert forall|i: int| #![trigger entries[i]] #![trigger rules[i]] 0 <= i < entries.len() implies client_metrics::entry_rule(
                        entries[i],
                    ) == Some(rules[i]) && !broken[i] by {
                        if i < last {
                            assert(rest[i] == entries[i]);
                            assert(rules[i] == before[i]);
                        }
                    }
                }
            },
        }
    }
}

/// Which clients a subscription is for: those of which every entry of its matching rule holds; for all,
/// where it has none.
pub proof fn subscriptions_are_for_those_that_match(subscription: ClientMetricSubscriptionView, attributes: Map<Seq<char>, Seq<char>>)
    ensures
        client_metrics::is_for(subscription, attributes) <==> (subscription.configs.contains_key("match"@) ==> forall|i: int|
            0 <= i < text_parts::list_items(subscription.configs["match"@]).len() ==> holds_of(
                #[trigger] text_parts::list_items(subscription.configs["match"@])[i],
                attributes,
            )),
{
    let entries = client_metrics::match_entries(subscription.configs);
    let broken = client_metrics::broken_entries(entries);
    rules_stand_for_entries(entries, broken);
    if subscription.configs.contains_key("match"@) {
        assert(entries == text_parts::list_items(subscription.configs["match"@]));
    }
    match client_metrics::rules_of(entries, broken) {
        Ok(rules) => {
            let found = client_metrics::patterns_found(rules, attributes);
            assert forall|i: int| 0 <= i < entries.len() implies holds_of(#[trigger] entries[i], attributes) == (attributes.contains_key(rules[i].0)
                && found[i]) by {
                assert(client_metrics::entry_rule(entries[i]) == Some(rules[i]));
            }
            if client_metrics::rules_hold(rules, attributes, found) {
                assert forall|i: int| 0 <= i < entries.len() implies holds_of(#[trigger] entries[i], attributes) by {
                    assert(attributes.contains_key(rules[i].0) && found[i]);
                }
            } else {
                let i = choose|i: int| 0 <= i < rules.len() && !(attributes.contains_key((#[trigger] rules[i]).0) && found[i]);
                assert(!holds_of(entries[i], attributes));
            }
        },
        Err(_) => {
            let i = choose|i: int| 0 <= i < entries.len() && (client_metrics::entry_rule(#[trigger] entries[i]) is None || broken[i]);
            assert(!holds_of(entries[i], attributes));
        },
    }
}

proof fn known_keys_pass(keys: Seq<Seq<char>>, i: int)
    requires
        client_metrics::keys_verdict(keys) is Ok,
        0 <= i < keys.len(),
    ensures
        client_metrics::is_config_key(keys[i]),
    decreases keys.len(),
{
    if i < keys.len() - 1 {
        known_keys_pass(keys.drop_last(), i);
        assert(keys.drop_last()[i] == keys[i]);
    } else {
        assert(keys.last() == keys[i]);
    }
}

/// Which settings a subscription can be given: its metrics, its interval and its matching rule. A change is
/// read back, all other subscriptions stay, and one without settings is gone.
pub proof fn subscriptions_have_the_settings_given(
    subscriptions: Map<Seq<char>, ClientMetricSubscriptionView>,
    alteration: ClientMetricConfigAlterationView,
    other: Seq<char>,
    key: Seq<char>,
)
    requires
        alteration.ops.dom().finite(),
    ensures
        ({
            let (after, answer) = client_metrics::subscriptions_altered(subscriptions, alteration, false);
            let name = alteration.name;
            let had = subscriptions.contains_key(name) && subscriptions[name].configs.contains_key(key);
            let has = after.contains_key(name) && after[name].configs.contains_key(key);
            &&& answer is Err ==> after == subscriptions
            &&& answer is Ok && alteration.ops.contains_key(key) ==> key == "metrics"@ || key == "interval.ms"@ || key == "match"@
            &&& answer is Ok ==> name.len() > 0
            &&& answer is Ok && alteration.ops.contains_key(key) ==> (has <==> alteration.ops[key] is Some) && (has ==> after[name].configs[key]
                == alteration.ops[key]->0)
            &&& answer is Ok && !alteration.ops.contains_key(key) ==> has == had && (had ==> after[name].configs[key]
                == subscriptions[name].configs[key])
            &&& other != name ==> after.contains_key(other) == subscriptions.contains_key(other) && (subscriptions.contains_key(other)
                ==> after[other] == subscriptions[other])
            &&& client_metrics::subscriptions_altered(subscriptions, alteration, true).0 == subscriptions
            &&& client_metrics::subscriptions_altered(subscriptions, alteration, true).1 == answer
        }),
{
    let (after, answer) = client_metrics::subscriptions_altered(subscriptions, alteration, false);
    if answer is Ok && alteration.ops.contains_key(key) {
        let keys = sorted_map::sorted_keys::<String>(alteration.ops.dom());
        sorted_map::finite_sets_are_listed::<String>(alteration.ops.dom());
        assert(keys.to_set().contains(key));
        let i = choose|i: int| 0 <= i < keys.len() && keys[i] == key;
        known_keys_pass(keys, i);
    }
    let before = match client_metrics::named(subscriptions, alteration.name) {
        Some(subscription) => subscription.configs,
        None => Map::empty(),
    };
    let settings = configs::changed(before, alteration.ops);
    if settings == Map::<Seq<char>, Seq<char>>::empty() {
        assert(!settings.contains_key(key));
    }
}

/// When a topic is created: where it has partitions, nothing is wrong with its name or configuration, and
/// neither it nor one too much like it exists. Then there are logs for its partitions, which hold nothing,
/// and for no others that there were not before.
pub proof fn topics_are_created_empty(
    s: LogStateView,
    name: Seq<char>,
    partitions: i32,
    config: TopicConfigView,
    refusal: Option<ControlErrorView>,
    collision: Option<ControlErrorView>,
    id: u128,
    p: PartitionKeyView,
)
    ensures
        ({
            let (after, answer) = topics::created(s, name, partitions, config, refusal, collision, id);
            let is_new = p.topic == name && 0 <= p.partition < partitions;
            &&& answer is Ok <==> partitions > 0 && refusal is None && !s.topics.contains_key(name) && collision is None
            &&& answer is Err ==> after == s
            &&& answer is Ok ==> (after.partitions.contains_key(p) <==> is_new || s.partitions.contains_key(p))
            &&& answer is Ok && is_new ==> after.partitions[p].next_offset == 0 && after.partitions[p].log_start_offset == 0
                && after.partitions[p].spans.len() == 0
            &&& answer is Ok && !is_new && s.partitions.contains_key(p) ==> after.partitions[p] == s.partitions[p]
            &&& partitions > 0 && refusal is None && s.topics.contains_key(name) ==> answer == Err::<TopicInfoView, ControlErrorView>(
                ControlErrorView::TopicAlreadyExists(name),
            )
        }),
{
}

/// When a topic grows: where it exists, to more partitions than it has. The old ones keep what they hold,
/// and the new ones hold nothing.
pub proof fn growing_topics_keep_their_logs(s: LogStateView, name: Seq<char>, new_count: i32, p: PartitionKeyView)
    ensures
        ({
            let (after, answer) = topics::grown(s, name, new_count);
            let had = s.topics[name].partitions;
            let is_new = p.topic == name && had <= p.partition < new_count;
            &&& answer is Ok <==> s.topics.contains_key(name) && new_count > had
            &&& answer is Err ==> after == s
            &&& !s.topics.contains_key(name) ==> answer == Err::<TopicInfoView, ControlErrorView>(ControlErrorView::TopicNotFound(name))
            &&& answer is Ok ==> answer->Ok_0.partitions == new_count && answer->Ok_0.name == s.topics[name].name && answer->Ok_0.id
                == s.topics[name].id && after.topics[name] == answer->Ok_0
            &&& answer is Ok ==> (after.partitions.contains_key(p) <==> is_new || s.partitions.contains_key(p))
            &&& answer is Ok && is_new ==> after.partitions[p].next_offset == 0 && after.partitions[p].spans.len() == 0
            &&& !is_new && s.partitions.contains_key(p) ==> after.partitions[p] == s.partitions[p]
        }),
{
}

/// Which topics are listed: all, or those that are named, as far as they exist; and each once.
pub proof fn topics_are_listed(s: LogStateView, names: Option<Seq<Seq<char>>>, name: Seq<char>)
    requires
        s.topics.dom().finite(),
        topics::named(s),
    ensures
        ({
            let list = topics::listed_topics(s, names);
            &&& s.topics.contains_key(name) && (names is None || names->0.contains(name)) ==> list.contains(s.topics[name])
            &&& forall|i: int|
                0 <= i < list.len() ==> s.topics.contains_key((#[trigger] list[i]).name) && s.topics[list[i].name] == list[i] && (names is None
                    || names->0.contains(list[i].name))
            &&& forall|i: int, j: int| 0 <= i < j < list.len() ==> (#[trigger] list[i]).name != (#[trigger] list[j]).name
        }),
{
    let some = topics::topics_named(s, names);
    assert(some.dom().subset_of(s.topics.dom()));
    vstd::set_lib::lemma_len_subset(some.dom(), s.topics.dom());
    sorted_map::finite_sets_are_listed::<String>(some.dom());
    let keys = sorted_map::sorted_keys::<String>(some.dom());
    sorted_map::strictly_sorted_unique::<String>(keys);
    let list = topics::listed_topics(s, names);
    assert forall|i: int| 0 <= i < list.len() implies (#[trigger] list[i]) == s.topics[keys[i]] && some.contains_key(keys[i]) && list[i].name == keys[i] by {
        assert(keys.to_set().contains(keys[i]));
    }
    if s.topics.contains_key(name) && (names is None || names->0.contains(name)) {
        assert(some.contains_key(name));
        assert(keys.to_set().contains(name));
        let i = choose|i: int| 0 <= i < keys.len() && keys[i] == name;
        assert(list[i] == s.topics[name]);
    }
}

/// The objects of a topic that is deleted are kept for as long as the topic's configuration says.
pub proof fn objects_of_deleted_topics_are_kept_for_a_while(s: LogStateView, info: TopicInfoView, now_ms: i64, p: PartitionKeyView, i: int)
    requires
        s.partitions.contains_key(p),
        p.topic == info.name,
        0 <= p.partition < info.partitions,
        0 <= i < s.partitions[p].spans.len(),
    ensures
        ({
            let after = topics::topic_deleted(s, info, now_ms);
            let key = s.partitions[p].spans[i].object_key;
            let delay = if s.topic_configs.contains_key(info.name) {
                s.topic_configs[info.name].file_delete_delay_ms
            } else {
                s.default_config.file_delete_delay_ms
            };
            let at = numbers::clamped_i64(now_ms + if delay > 0 { delay as int } else { 0 });
            &&& !after.partitions.contains_key(p)
            &&& after.object_delete_after.contains_key(key)
            &&& after.object_delete_after[key] >= at
            &&& after.object_delete_after[key] == at || (s.object_delete_after.contains_key(key) && after.object_delete_after[key]
                == s.object_delete_after[key])
        }),
{
    let key = s.partitions[p].spans[i].object_key;
    assert(topics::topic_objects(s.partitions, info.name, info.partitions as int).contains(key));
}

/// The text of parts with a character between them.
pub open spec fn put_together(parts: Seq<Seq<char>>, mark: char) -> Seq<char>
    decreases parts.len(),
{
    if parts.len() == 0 {
        Seq::empty()
    } else if parts.len() == 1 {
        parts[0]
    } else {
        put_together(parts.drop_last(), mark).push(mark) + parts.last()
    }
}

/// A text that is taken apart at a character can be put together again, and no part holds the character.
pub proof fn pieces_make_up_the_text(text: Seq<char>, mark: char)
    ensures
        ({
            let parts = text_parts::pieces(text, mark);
            &&& parts.len() > 0
            &&& put_together(parts, mark) == text
            &&& forall|i: int| 0 <= i < parts.len() ==> !(#[trigger] parts[i]).contains(mark)
        }),
    decreases text.len(),
{
    if text.len() > 0 {
        let rest = text.drop_last();
        pieces_make_up_the_text(rest, mark);
        let before = text_parts::pieces(rest, mark);
        let parts = text_parts::pieces(text, mark);
        assert(rest.push(text.last()) =~= text);
        if text.last() == mark {
            assert(parts.drop_last() =~= before);
            assert(put_together(before, mark).push(mark) + Seq::<char>::empty() =~= text);
            assert forall|i: int| 0 <= i < parts.len() implies !(#[trigger] parts[i]).contains(mark) by {
                if i < before.len() {
                    assert(parts[i] == before[i]);
                }
            }
        } else {
            let tail = before.last().push(text.last());
            assert(parts.drop_last() =~= before.drop_last());
            assert(parts.last() == tail);
            if before.len() == 1 {
                assert(put_together(parts, mark) =~= text);
            } else {
                assert(put_together(before.drop_last(), mark).push(mark) + tail =~= (put_together(before.drop_last(), mark).push(mark)
                    + before.last()).push(text.last()));
            }
            assert forall|i: int| 0 <= i < parts.len() implies !(#[trigger] parts[i]).contains(mark) by {
                if i < parts.len() - 1 {
                    assert(parts[i] == before[i]);
                } else {
                    assert(!before[before.len() - 1].contains(mark));
                    assert forall|k: int| 0 <= k < tail.len() implies tail[k] != mark by {
                        if k < before.last().len() {
                            assert(before.last()[k] == tail[k]);
                        }
                    }
                }
            }
        }
    }
}

/// Trimming takes white space off the ends of a text, all of it, and nothing else.
pub proof fn trimming_takes_white_space(text: Seq<char>) -> (r: (int, int))
    ensures
        0 <= r.0 <= r.1 <= text.len(),
        text_parts::trimmed(text) == text.subrange(r.0, r.1),
        forall|i: int| 0 <= i < text.len() && !(r.0 <= i < r.1) ==> text_parts::is_blank(#[trigger] text[i]),
        r.0 < r.1 ==> !text_parts::is_blank(text[r.0]) && !text_parts::is_blank(text[r.1 - 1]),
    decreases text.len(),
{
    if text.len() > 0 && text_parts::is_blank(text[0]) {
        let rest = text.drop_first();
        let (a, b) = trimming_takes_white_space(rest);
        assert(rest.subrange(a, b) =~= text.subrange(a + 1, b + 1));
        assert forall|i: int| 0 <= i < text.len() && !(a + 1 <= i < b + 1) implies text_parts::is_blank(#[trigger] text[i]) by {
            if i > 0 {
                assert(text[i] == rest[i - 1]);
            }
        }
        (a + 1, b + 1)
    } else if text.len() > 0 && text_parts::is_blank(text.last()) {
        let rest = text.drop_last();
        let (a, b) = trimming_takes_white_space(rest);
        assert(rest.subrange(a, b) =~= text.subrange(a, b));
        assert forall|i: int| 0 <= i < text.len() && !(a <= i < b) implies text_parts::is_blank(#[trigger] text[i]) by {
            if i < rest.len() {
                assert(text[i] == rest[i]);
            }
        }
        (a, b)
    } else {
        assert(text.subrange(0, text.len() as int) =~= text);
        (0, text.len() as int)
    }
}

proof fn natural_digits_are_read(n: nat)
    ensures
        text_parts::digits_value(text::natural_text(n)) == Some(n as int),
        text::natural_text(n).len() > 0,
        text::natural_text(n)[0] != '-',
        text::natural_text(n)[0] != '+',
    decreases n,
{
    let digits = text::natural_text(n);
    if n < 10 {
        assert(digits.drop_last() =~= Seq::empty());
        assert(text_parts::digits_value(digits.drop_last()) == Some(0int));
    } else {
        natural_digits_are_read(n / 10);
        assert(digits.drop_last() =~= text::natural_text(n / 10));
        assert(digits[0] == text::natural_text(n / 10)[0]);
    }
}

/// A number that is written in decimal is read back.
pub proof fn written_numbers_are_read_back(n: i32)
    ensures
        text_parts::parsed_i32(text::decimal_text(n as int)) == Some(n as int),
{
    if n < 0 {
        natural_digits_are_read((-n) as nat);
        let all = text::decimal_text(n as int);
        assert(all.skip(1) =~= text::natural_text((-n) as nat));
    } else {
        natural_digits_are_read(n as nat);
    }
}

} // verus!
