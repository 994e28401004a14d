//! That topics are found after their creation, under their names and their ids, and gone after their
//! deletion.

use crate::consumer_target_laws;
use crate::error::ControlErrorView;
use crate::log_types::{LogStateView, TopicConfigView};
use crate::partition::{PartitionKeyView, TopicInfoView};
use crate::sorted_map;
use crate::topics;
use crate::trim_laws;
use vstd::prelude::*;

verus! {

/// Whether no two topics have the same id.
pub open spec fn ids_differ(s: LogStateView) -> bool {
    forall|a: Seq<char>, b: Seq<char>|
        a != b && #[trigger] s.topics.contains_key(a) && #[trigger] s.topics.contains_key(b) ==> s.topics[a].id != s.topics[b].id
}

/// Whether some topic has an id.
pub open spec fn is_used(s: LogStateView, id: u128) -> bool {
    exists|name: Seq<char>| #[trigger] s.topics.contains_key(name) && s.topics[name].id == id
}

proof fn topics_stand_under_their_ids(s: LogStateView, name: Seq<char>)
    requires
        s.topics.dom().finite(),
        ids_differ(s),
        s.topics.contains_key(name),
    ensures
        topics::topic_under(s, s.topics[name].id) == Some(s.topics[name]),
{
    let under = topics::topics_under(s, s.topics[name].id);
    assert(under.dom() =~= set![name]);
    let names = sorted_map::sorted_keys::<String>(under.dom());
    sorted_map::finite_sets_are_listed::<String>(under.dom());
    assert(under.dom().contains(name));
    assert(names.to_set().contains(name));
    assert(names.len() > 0);
    assert(names.contains(names[0]));
    assert(names.to_set().contains(names[0]));
}

proof fn unused_ids_find_nothing(s: LogStateView, id: u128)
    requires
        !is_used(s, id),
    ensures
        topics::topic_under(s, id) is None,
{
    let under = topics::topics_under(s, id);
    assert(under.dom() =~= Set::empty());
    sorted_map::finite_sets_are_listed::<String>(under.dom());
    let names = sorted_map::sorted_keys::<String>(under.dom());
    if names.len() > 0 {
        assert(names.contains(names[0]));
        assert(names.to_set().contains(names[0]));
    }
}

/// A topic that was created under an unused id is found by its name and by its id, has its
/// configuration and an empty log for each partition, and every other topic is as it was.
pub proof fn created_topics_are_found(
    s: LogStateView,
    name: Seq<char>,
    partitions: i32,
    config: TopicConfigView,
    refusal: Option<ControlErrorView>,
    collision: Option<ControlErrorView>,
    id: u128,
    other: Seq<char>,
)
    requires
        s.topics.dom().finite(),
        ids_differ(s),
        !is_used(s, id),
        topics::created(s, name, partitions, config, refusal, collision, id).1 is Ok,
    ensures
        ({
            let (after, answer) = topics::created(s, name, partitions, config, refusal, collision, id);
            let info = TopicInfoView { id, name, partitions };
            &&& answer->Ok_0 == info
            &&& ids_differ(after)
            &&& after.topics.contains_key(name) && after.topics[name] == info
            &&& topics::topic_under(after, id) == Some(info)
            &&& after.topic_configs.contains_key(name) && after.topic_configs[name] == config
            &&& forall|p: PartitionKeyView|
                p.topic == name && 0 <= p.partition < partitions ==> #[trigger] after.partitions.contains_key(p) && after.partitions[p]
                    == topics::new_log()
            &&& s.topics.contains_key(other) ==> other != name && after.topics.contains_key(other) && after.topics[other] == s.topics[other]
                && topics::topic_under(after, s.topics[other].id) == Some(s.topics[other])
        }),
{
    let after = topics::created(s, name, partitions, config, refusal, collision, id).0;
    assert forall|a: Seq<char>, b: Seq<char>| a != b && #[trigger] after.topics.contains_key(a) && #[trigger] after.topics.contains_key(b)
        implies after.topics[a].id != after.topics[b].id by {
        assert(a != name ==> s.topics.contains_key(a));
        assert(b != name ==> s.topics.contains_key(b));
    }
    topics_stand_under_their_ids(after, name);
    if s.topics.contains_key(other) {
        topics_stand_under_their_ids(after, other);
    }
}

/// A topic keeps its id and its name when it gets more partitions, and no other topic is touched.
pub proof fn grown_topics_keep_their_ids(s: LogStateView, name: Seq<char>, new_count: i32, other: Seq<char>)
    requires
        ids_differ(s),
    ensures
        ids_differ(topics::grown(s, name, new_count).0),
        s.topics.contains_key(name) ==> topics::grown(s, name, new_count).0.topics[name].id == s.topics[name].id,
        topics::grown(s, name, new_count).1 is Ok ==> topics::grown(s, name, new_count).0.topics[name].partitions == new_count,
        other != name && s.topics.contains_key(other) ==> topics::grown(s, name, new_count).0.topics[other] == s.topics[other],
{
    let after = topics::grown(s, name, new_count).0;
    assert forall|a: Seq<char>, b: Seq<char>| a != b && #[trigger] after.topics.contains_key(a) && #[trigger] after.topics.contains_key(b)
        implies after.topics[a].id != after.topics[b].id by {
        assert(s.topics.contains_key(a) && s.topics.contains_key(b));
    }
}

/// A topic that was deleted is found neither by its name nor by its id, has no configuration and no
/// log any more, and every other topic is as it was.
pub proof fn deleted_topics_are_gone(s: LogStateView, name: Seq<char>, now_ms: i64, other: Seq<char>)
    requires
        s.topics.dom().finite(),
        trim_laws::topics_and_logs_agree(s),
        ids_differ(s),
        s.topics.contains_key(name),
    ensures
        ({
            let after = topics::topic_deleted(s, s.topics[name], now_ms);
            &&& ids_differ(after)
            &&& !after.topics.contains_key(name)
            &&& topics::topic_under(after, s.topics[name].id) is None
            &&& !after.topic_configs.contains_key(name)
            &&& forall|p: PartitionKeyView| #[trigger] after.partitions.contains_key(p) ==> p.topic != name
            &&& other != name && s.topics.contains_key(other) ==> after.topics.contains_key(other) && after.topics[other] == s.topics[other]
                && topics::topic_under(after, s.topics[other].id) == Some(s.topics[other])
        }),
{
    let after = topics::topic_deleted(s, s.topics[name], now_ms);
    assert forall|a: Seq<char>, b: Seq<char>| a != b && #[trigger] after.topics.contains_key(a) && #[trigger] after.topics.contains_key(b)
        implies after.topics[a].id != after.topics[b].id by {
        assert(s.topics.contains_key(a) && s.topics.contains_key(b));
    }
    assert(!is_used(after, s.topics[name].id)) by {
        if is_used(after, s.topics[name].id) {
            let b = choose|b: Seq<char>| #[trigger] after.topics.contains_key(b) && after.topics[b].id == s.topics[name].id;
            assert(s.topics.contains_key(b));
        }
    }
    unused_ids_find_nothing(after, s.topics[name].id);
    assert forall|p: PartitionKeyView| #[trigger] after.partitions.contains_key(p) implies p.topic != name by {
        assert(s.partitions.contains_key(p));
    }
    if other != name && s.topics.contains_key(other) {
        topics_stand_under_their_ids(after, other);
    }
}

/// Partitions of the topics of a store can be assigned to consumers.
pub proof fn stored_topics_can_be_assigned(s: LogStateView)
    requires
        s.topics.dom().finite(),
        s.topics.dom().len() <= u64::MAX,
        trim_laws::topics_and_logs_agree(s),
        ids_differ(s),
    ensures
        consumer_target_laws::listed(topics::listed_topics(s, None)),
{
    let all = topics::listed_topics(s, None);
    let some = topics::topics_named(s, None);
    let keys = sorted_map::sorted_keys::<String>(some.dom());
    assert(some.dom() =~= s.topics.dom());
    sorted_map::finite_sets_are_listed::<String>(some.dom());
    sorted_map::strictly_sorted_unique::<String>(keys);
    assert forall|i: int| 0 <= i < keys.len() implies s.topics.contains_key(#[trigger] keys[i]) by {
        assert(keys.to_set().contains(keys[i]));
    }
    assert forall|i: int| 0 <= i < all.len() implies (#[trigger] all[i]).partitions >= 0 by {
        assert(s.topics.contains_key(keys[i]));
    }
    assert forall|i: int, j: int| 0 <= i < j < all.len() implies (#[trigger] all[i]).id != (#[trigger] all[j]).id by {
        assert(s.topics.contains_key(keys[i]) && s.topics.contains_key(keys[j]));
        assert(keys[i] != keys[j]);
    }
}

} // verus!
