//! Topics: their creation, growth and deletion.

use crate::error;
use crate::error::{ControlError, ControlErrorView};
use crate::log_objects;
use crate::log_objects::{add_object_keys, defer_memory_object_delete};
use crate::log_retention;
use crate::log_retention::find_config;
use crate::log_types::{LogState, LogStateView, MemoryPartition, MemoryPartitionView, TopicConfig, TopicConfigView};
use crate::partition::{PartitionKey, PartitionKeyView, TopicInfo, TopicInfoView};
use crate::sorted_map;
use crate::sorted_map::{Duplicate, SortedMap};
use crate::text::same_text;
use vstd::prelude::*;

verus! {

/// A log that holds nothing.
pub open spec fn new_log() -> MemoryPartitionView {
    MemoryPartitionView {
        next_offset: 0,
        log_start_offset: 0,
        compaction_last_offset: -1i64,
        compaction_recheck_at_ms: None,
        compaction_lease: None,
        spans: Seq::empty(),
    }
}

impl Default for MemoryPartition {
    fn default() -> (r: Self)
        ensures
            r.deep_view() == new_log(),
    {
        let r = MemoryPartition {
            next_offset: 0,
            log_start_offset: 0,
            compaction_last_offset: -1,
            compaction_recheck_at_ms: None,
            compaction_lease: None,
            spans: Vec::new(),
        };
        assert(r.spans.deep_view() =~= Seq::empty());
        r
    }
}

/// Whether a partition is one of the partitions `from..to` of a topic.
pub open spec fn is_within(p: PartitionKeyView, topic: Seq<char>, from: int, to: int) -> bool {
    p.topic == topic && from <= p.partition < to
}

/// The logs with new ones for the partitions `from..to` of a topic.
pub open spec fn with_logs(partitions: Map<PartitionKeyView, MemoryPartitionView>, topic: Seq<char>, from: int, to: int) -> Map<
    PartitionKeyView,
    MemoryPartitionView,
> {
    Map::new(
        |p: PartitionKeyView| partitions.contains_key(p) || is_within(p, topic, from, to),
        |p: PartitionKeyView|
            if is_within(p, topic, from, to) {
                new_log()
            } else {
                partitions[p]
            },
    )
}

/// The logs without those of the first `n` partitions of a topic.
pub open spec fn without_logs(partitions: Map<PartitionKeyView, MemoryPartitionView>, topic: Seq<char>, n: int) -> Map<
    PartitionKeyView,
    MemoryPartitionView,
> {
    Map::new(|p: PartitionKeyView| partitions.contains_key(p) && !is_within(p, topic, 0, n), |p: PartitionKeyView| partitions[p])
}

fn add_logs(partitions: &mut SortedMap<PartitionKey, MemoryPartition>, topic: &str, from: i32, to: i32)
    requires
        from <= to,
    ensures
        final(partitions).deep_view() == with_logs(old(partitions).deep_view(), topic@, from as int, to as int),
{
    let ghost m = partitions.deep_view();
    let mut i: i32 = from;
    assert(m =~= with_logs(m, topic@, from as int, from as int));
    while i < to
        invariant
            from <= i <= to,
            partitions.deep_view() == with_logs(m, topic@, from as int, i as int),
        decreases to - i,
    {
        partitions.insert(PartitionKey::new(topic, i), MemoryPartition::default());
        assert(partitions.deep_view() =~= with_logs(m, topic@, from as int, i + 1));
        i = i + 1;
    }
}

/// Why a topic cannot be created: `refusal` is what is wrong with its name or configuration, and
/// `collision` what is wrong with its name beside those of other topics.
pub open spec fn creation_refusal(
    s: LogStateView,
    name: Seq<char>,
    refusal: Option<ControlErrorView>,
    collision: Option<ControlErrorView>,
) -> Option<ControlErrorView> {
    match refusal {
        Some(refusal) => Some(refusal),
        None => if s.topics.contains_key(name) {
            Some(ControlErrorView::TopicAlreadyExists(name))
        } else {
            collision
        },
    }
}

/// The state after a topic has been created under the id `id`.
pub open spec fn created(
    s: LogStateView,
    name: Seq<char>,
    partitions: i32,
    config: TopicConfigView,
    refusal: Option<ControlErrorView>,
    collision: Option<ControlErrorView>,
    id: u128,
) -> (LogStateView, Result<TopicInfoView, ControlErrorView>) {
    if partitions <= 0 {
        (s, Err(ControlErrorView::InvalidRequest("partitions must be positive"@)))
    } else {
        match creation_refusal(s, name, refusal, collision) {
            Some(refusal) => (s, Err(refusal)),
            None => {
                let info = TopicInfoView { id, name, partitions };
                (
                    LogStateView {
                        topics: s.topics.insert(name, info),
                        topic_configs: s.topic_configs.insert(name, config),
                        partitions: with_logs(s.partitions, name, 0, partitions as int),
                        ..s
                    },
                    Ok(info),
                )
            },
        }
    }
}

/// The state after a topic has grown to `new_count` partitions.
pub open spec fn grown(s: LogStateView, name: Seq<char>, new_count: i32) -> (LogStateView, Result<TopicInfoView, ControlErrorView>) {
    if !s.topics.contains_key(name) {
        (s, Err(ControlErrorView::TopicNotFound(name)))
    } else if new_count <= s.topics[name].partitions {
        (
            s,
            Err(
                ControlErrorView::InvalidPartitionCount {
                    topic: name,
                    current: s.topics[name].partitions,
                    requested: new_count,
                },
            ),
        )
    } else {
        let info = TopicInfoView { partitions: new_count, ..s.topics[name] };
        (
            LogStateView {
                topics: s.topics.insert(name, info),
                partitions: with_logs(s.partitions, name, s.topics[name].partitions as int, new_count as int),
                ..s
            },
            Ok(info),
        )
    }
}

/// The objects of the first `n` partitions of a topic.
pub open spec fn topic_objects(partitions: Map<PartitionKeyView, MemoryPartitionView>, topic: Seq<char>, n: int) -> Set<Seq<char>> {
    Set::new(
        |k: Seq<char>|
            exists|p: PartitionKeyView| #[trigger] partitions.contains_key(p) && is_within(p, topic, 0, n) && log_objects::log_refers_to(
                partitions[p].spans,
                k,
            ),
    )
}

/// The state after a topic has been deleted.
pub open spec fn topic_deleted(s: LogStateView, info: TopicInfoView, now_ms: i64) -> LogStateView {
    LogStateView {
        topics: s.topics.remove(info.name),
        topic_configs: s.topic_configs.remove(info.name),
        partitions: without_logs(s.partitions, info.name, info.partitions as int),
        object_delete_after: log_objects::deferred(
            s.object_delete_after,
            topic_objects(s.partitions, info.name, info.partitions as int),
            log_objects::delete_time(now_ms, log_retention::config_of(s, info.name).file_delete_delay_ms),
        ),
        ..s
    }
}

/// The topics under an id, by name.
pub open spec fn topics_under(s: LogStateView, id: u128) -> Map<Seq<char>, TopicInfoView> {
    sorted_map::filtered(s.topics, |name: Seq<char>, info: TopicInfoView| info.id == id)
}

/// The first topic under an id.
pub open spec fn topic_under(s: LogStateView, id: u128) -> Option<TopicInfoView> {
    let names = sorted_map::sorted_keys::<String>(topics_under(s, id).dom());
    if names.len() == 0 {
        None
    } else {
        Some(s.topics[names[0]])
    }
}

/// The topics whose own names are in a list, or all.
pub open spec fn topics_named(s: LogStateView, names: Option<Seq<Seq<char>>>) -> Map<Seq<char>, TopicInfoView> {
    sorted_map::filtered(
        s.topics,
        |name: Seq<char>, info: TopicInfoView| names is None || names->0.contains(info.name),
    )
}

/// The topics whose own names are in a list, or all, in order.
pub open spec fn listed_topics(s: LogStateView, names: Option<Seq<Seq<char>>>) -> Seq<TopicInfoView> {
    let keys = sorted_map::sorted_keys::<String>(topics_named(s, names).dom());
    Seq::new(keys.len(), |i: int| s.topics[keys[i]])
}

/// Whether every topic is stored under its own name.
pub open spec fn named(s: LogStateView) -> bool {
    forall|name: Seq<char>| #[trigger] s.topics.contains_key(name) ==> s.topics[name].name == name
}

fn lists_name(names: &[String], name: &str) -> (r: bool)
    ensures
        r == sorted_map::models(names@).contains(name@),
{
    let ghost all = sorted_map::models(names@);
    let mut i: usize = 0;
    while i < names.len()
        invariant
            i <= names@.len(),
            all == sorted_map::models(names@),
            forall|j: int| 0 <= j < i ==> #[trigger] all[j] != name@,
        decreases names@.len() - i,
    {
        assert(all[i as int] == names@[i as int]@);
        if same_text(names[i].as_str(), name) {
            return true;
        }
        i = i + 1;
    }
    false
}

fn delete_memory_topic(state: &mut LogState, info: &TopicInfo, now_ms: i64)
    ensures
        final(state).deep_view() == topic_deleted(old(state).deep_view(), info.deep_view(), now_ms),
{
    let ghost s = state.deep_view();
    let ghost name = info.name@;
    let delay_ms: i64 = find_config(state, &info.name).file_delete_delay_ms;
    let mut keys: SortedMap<String, ()> = SortedMap::new();
    state.topics.remove(&info.name);
    state.topic_configs.remove(&info.name);
    let mut i: i32 = 0;
    assert(state.partitions.deep_view() =~= without_logs(s.partitions, name, 0));
    assert(keys.deep_view().dom() =~= topic_objects(s.partitions, name, 0));
    while i < info.partitions
        invariant
            0 <= i,
            i <= info.partitions || i == 0,
            name == info.name@,
            keys.deep_view().dom() == topic_objects(s.partitions, name, i as int),
            state.deep_view() == (LogStateView {
                topics: s.topics.remove(name),
                topic_configs: s.topic_configs.remove(name),
                partitions: without_logs(s.partitions, name, i as int),
                ..s
            }),
        decreases info.partitions - i,
    {
        let key = PartitionKey::new(info.name.as_str(), i);
        let ghost p = key.deep_view();
        let ghost before = keys.deep_view().dom();
        let removed = state.partitions.remove(&key);
        if let Some(log) = &removed {
            add_object_keys(&mut keys, &log.spans);
        }
        proof {
            assert(without_logs(s.partitions, name, i as int).remove(p) =~= without_logs(s.partitions, name, i + 1));
            assert forall|k: Seq<char>| #[trigger] keys.deep_view().dom().contains(k) <==> topic_objects(s.partitions, name, i + 1).contains(k) by {
                if before.contains(k) {
                    let q = choose|q: PartitionKeyView| #[trigger] s.partitions.contains_key(q) && is_within(q, name, 0, i as int)
                        && log_objects::log_refers_to(s.partitions[q].spans, k);
                    assert(s.partitions.contains_key(q) && is_within(q, name, 0, i + 1));
                }
                if s.partitions.contains_key(p) && log_objects::log_refers_to(s.partitions[p].spans, k) {
                    assert(is_within(p, name, 0, i + 1));
                    assert(keys.deep_view().dom().contains(k));
                }
                if topic_objects(s.partitions, name, i + 1).contains(k) {
                    let q = choose|q: PartitionKeyView| #[trigger] s.partitions.contains_key(q) && is_within(q, name, 0, i + 1)
                        && log_objects::log_refers_to(s.partitions[q].spans, k);
                    if q.partition < i {
                        assert(is_within(q, name, 0, i as int));
                        assert(before.contains(k));
                    } else {
                        assert(q == p);
                    }
                }
            }
            assert(keys.deep_view().dom() =~= topic_objects(s.partitions, name, i + 1));
        }
        i = i + 1;
    }
    proof {
        if info.partitions <= 0 {
            assert(without_logs(s.partitions, name, 0) =~= without_logs(s.partitions, name, info.partitions as int));
            assert(topic_objects(s.partitions, name, 0) =~= topic_objects(s.partitions, name, info.partitions as int));
        }
    }
    defer_memory_object_delete(state, &keys, now_ms, delay_ms);
}

impl LogState {
    /// A store that holds nothing, and the configuration of topics that have none of their own.
    pub fn new(default_config: TopicConfig) -> (r: Self)
        ensures
            r.deep_view() == empty_log(default_config.deep_view()),
    {
        LogState {
            default_config,
            topics: SortedMap::new(),
            topic_configs: SortedMap::new(),
            partitions: SortedMap::new(),
            objects: SortedMap::new(),
            staged_objects: SortedMap::new(),
            orphan_gc_claims: SortedMap::new(),
            unreferenced_objects: SortedMap::new(),
            object_delete_after: SortedMap::new(),
            offsets: SortedMap::new(),
            next_producer_id: 0,
            producers: SortedMap::new(),
            transactional_producers: SortedMap::new(),
            transactions: SortedMap::new(),
        }
    }

    /// Checks that a topic could be created.
    pub fn validate_topic_creation(&self, name: &str, refusal: Option<ControlError>, collision: Option<ControlError>) -> (r: Result<
        (),
        ControlError,
    >)
        ensures
            error::outcome(r) == (match creation_refusal(self.deep_view(), name@, refusal.deep_view(), collision.deep_view()) {
                Some(refusal) => Err(refusal),
                None => Ok(()),
            }),
    {
        if let Some(refusal) = refusal {
            return Err(refusal);
        }
        if self.topics.contains_key(&name.to_owned()) {
            return Err(ControlError::TopicAlreadyExists(name.to_owned()));
        }
        match collision {
            Some(refusal) => Err(refusal),
            None => Ok(()),
        }
    }

    /// Creates a topic.
    pub fn create_topic_with_config(
        &mut self,
        name: &str,
        partitions: i32,
        config: TopicConfig,
        refusal: Option<ControlError>,
        collision: Option<ControlError>,
        id: u128,
    ) -> (r: Result<TopicInfo, ControlError>)
        ensures
            (final(self).deep_view(), error::outcome(r)) == created(
                old(self).deep_view(),
                name@,
                partitions,
                config.deep_view(),
                refusal.deep_view(),
                collision.deep_view(),
                id,
            ),
    {
        if partitions <= 0 {
            return Err(ControlError::InvalidRequest("partitions must be positive".to_owned()));
        }
        match self.validate_topic_creation(name, refusal, collision) {
            Ok(_) => {},
            Err(refusal) => return Err(refusal),
        }
        let info = TopicInfo { id, name: name.to_owned(), partitions };
        self.topics.insert(name.to_owned(), info.duplicate());
        self.topic_configs.insert(name.to_owned(), config);
        add_logs(&mut self.partitions, name, 0, partitions);
        Ok(info)
    }

    /// Creates a topic with the default configuration.
    pub fn create_topic(
        &mut self,
        name: &str,
        partitions: i32,
        refusal: Option<ControlError>,
        collision: Option<ControlError>,
        id: u128,
    ) -> (r: Result<TopicInfo, ControlError>)
        ensures
            (final(self).deep_view(), error::outcome(r)) == created(
                old(self).deep_view(),
                name@,
                partitions,
                old(self).deep_view().default_config,
                refusal.deep_view(),
                collision.deep_view(),
                id,
            ),
    {
        let config = self.default_config.duplicate();
        self.create_topic_with_config(name, partitions, config, refusal, collision, id)
    }

    /// Gives a topic more partitions.
    pub fn create_partitions(&mut self, name: &str, new_count: i32) -> (r: Result<TopicInfo, ControlError>)
        ensures
            (final(self).deep_view(), error::outcome(r)) == grown(old(self).deep_view(), name@, new_count),
    {
        let ghost s = self.deep_view();
        let key = name.to_owned();
        let current: i32 = match self.topics.get(&key) {
            Some(info) => info.partitions,
            None => return Err(ControlError::TopicNotFound(key)),
        };
        if new_count <= current {
            return Err(ControlError::InvalidPartitionCount { topic: key, current, requested: new_count });
        }
        add_logs(&mut self.partitions, name, current, new_count);
        let mut info = self.topics.remove(&key).unwrap();
        info.partitions = new_count;
        let ghost after = info.deep_view();
        self.topics.insert(key, info.duplicate());
        assert(s.topics.remove(name@).insert(name@, after) =~= s.topics.insert(name@, after));
        Ok(info)
    }

    /// Deletes a topic.
    pub fn delete_topic(&mut self, name: &str, now_ms: i64) -> (r: Result<(), ControlError>)
        ensures
            (final(self).deep_view(), error::outcome(r)) == (if old(self).deep_view().topics.contains_key(name@) {
                (
                    topic_deleted(old(self).deep_view(), old(self).deep_view().topics[name@], now_ms),
                    Ok::<(), ControlErrorView>(()),
                )
            } else {
                (old(self).deep_view(), Err(ControlErrorView::TopicNotFound(name@)))
            }),
    {
        let info = match self.topics.get(&name.to_owned()) {
            Some(info) => info.duplicate(),
            None => return Err(ControlError::TopicNotFound(name.to_owned())),
        };
        delete_memory_topic(self, &info, now_ms);
        Ok(())
    }

    /// The topic of a name.
    pub fn topic(&self, name: &str) -> (r: Option<TopicInfo>)
        ensures
            r.deep_view() == (if self.deep_view().topics.contains_key(name@) {
                Some(self.deep_view().topics[name@])
            } else {
                None
            }),
    {
        match self.topics.get(&name.to_owned()) {
            Some(info) => Some(info.duplicate()),
            None => None,
        }
    }

    /// The topic of an id.
    pub fn topic_by_id(&self, id: u128) -> (r: Option<TopicInfo>)
        ensures
            r.deep_view() == topic_under(self.deep_view(), id),
    {
        let ghost s = self.deep_view();
        let ghost under = |name: Seq<char>, info: TopicInfoView| info.id == id;
        let test = |name: &String, info: &TopicInfo| -> (b: bool)
            ensures b == under(name.deep_view(), info.deep_view())
        {
            info.id == id
        };
        let names = self.topics.keys_where(test, Ghost(under));
        let ghost all = names.deep_view();
        assert(sorted_map::filtered(s.topics, under) == topics_under(s, id));
        assert(all.len() == names@.len());
        if names.len() == 0 {
            return None;
        }
        assert(all[0] == names@[0].deep_view());
        assert(all.to_set().contains(all[0]));
        match self.topics.get(&names[0]) {
            Some(info) => Some(info.duplicate()),
            None => None,
        }
    }

    /// Deletes the topic of an id.
    pub fn delete_topic_by_id(&mut self, id: u128, now_ms: i64) -> (r: Option<TopicInfo>)
        ensures
            r.deep_view() == topic_under(old(self).deep_view(), id),
            final(self).deep_view() == (match topic_under(old(self).deep_view(), id) {
                Some(info) => topic_deleted(old(self).deep_view(), info, now_ms),
                None => old(self).deep_view(),
            }),
    {
        let info = match self.topic_by_id(id) {
            Some(info) => info,
            None => return None,
        };
        delete_memory_topic(self, &info, now_ms);
        Some(info)
    }

    /// The topics whose names are in a list, or all, in the order of the names they are stored under.
    pub fn topics(&self, names: Option<&[String]>) -> (r: Vec<TopicInfo>)
        ensures
            r.deep_view() == listed_topics(
                self.deep_view(),
                match names {
                    Some(names) => Some(sorted_map::models(names@)),
                    None => None,
                },
            ),
    {
        let ghost s = self.deep_view();
        let ghost asked = match names {
            Some(names) => Some(sorted_map::models(names@)),
            None => None,
        };
        let ghost wanted = |name: Seq<char>, info: TopicInfoView| asked is None || asked->0.contains(info.name);
        let test = |name: &String, info: &TopicInfo| -> (b: bool)
            ensures b == wanted(name.deep_view(), info.deep_view())
        {
            match names {
                Some(names) => lists_name(names, info.name.as_str()),
                None => true,
            }
        };
        let keys = self.topics.keys_where(test, Ghost(wanted));
        let ghost all = keys.deep_view();
        assert(sorted_map::filtered(s.topics, wanted) =~= topics_named(s, asked));
        let mut r: Vec<TopicInfo> = Vec::new();
        let mut i: usize = 0;
        while i < keys.len()
            invariant
                i <= keys@.len(),
                r@.len() == i,
                s == self.deep_view(),
                all == keys.deep_view(),
                all.to_set() == topics_named(s, asked).dom(),
                forall|j: int| 0 <= j < i ==> (#[trigger] r@[j]).deep_view() == s.topics[all[j]],
            decreases keys@.len() - i,
        {
            assert(all[i as int] == keys@[i as int].deep_view());
            assert(all.to_set().contains(all[i as int]));
            r.push(self.topics.get(&keys[i]).unwrap().duplicate());
            i = i + 1;
        }
        assert(r.deep_view() =~= listed_topics(s, asked));
        r
    }

    /// The configuration of a topic.
    pub fn topic_config(&self, name: &str) -> (r: Result<TopicConfig, ControlError>)
        ensures
            error::outcome(r) == (if self.deep_view().topic_configs.contains_key(name@) {
                Ok(self.deep_view().topic_configs[name@])
            } else {
                Err(ControlErrorView::TopicNotFound(name@))
            }),
    {
        match self.topic_configs.get(&name.to_owned()) {
            Some(config) => Ok(config.duplicate()),
            None => Err(ControlError::TopicNotFound(name.to_owned())),
        }
    }

    /// Gives a topic another configuration, unless `refusal` says what is wrong with it.
    pub fn set_topic_config(&mut self, name: &str, config: TopicConfig, refusal: Option<ControlError>) -> (r: Result<(), ControlError>)
        ensures
            (final(self).deep_view(), error::outcome(r)) == (match refusal.deep_view() {
                Some(refusal) => (old(self).deep_view(), Err::<(), ControlErrorView>(refusal)),
                None => if old(self).deep_view().topic_configs.contains_key(name@) {
                    (
                        LogStateView {
                            topic_configs: old(self).deep_view().topic_configs.insert(name@, config.deep_view()),
                            ..old(self).deep_view()
                        },
                        Ok(()),
                    )
                } else {
                    (old(self).deep_view(), Err(ControlErrorView::TopicNotFound(name@)))
                },
            }),
    {
        if let Some(refusal) = refusal {
            return Err(refusal);
        }
        let key = name.to_owned();
        if !self.topic_configs.contains_key(&key) {
            return Err(ControlError::TopicNotFound(key));
        }
        self.topic_configs.insert(key, config);
        Ok(())
    }
}

/// A store that holds nothing.
pub open spec fn empty_log(default_config: TopicConfigView) -> LogStateView {
    LogStateView {
        default_config,
        topics: Map::empty(),
        topic_configs: Map::empty(),
        partitions: Map::empty(),
        objects: Map::empty(),
        staged_objects: Map::empty(),
        orphan_gc_claims: Map::empty(),
        unreferenced_objects: Map::empty(),
        object_delete_after: Map::empty(),
        offsets: Map::empty(),
        next_producer_id: 0,
        producers: Map::empty(),
        transactional_producers: Map::empty(),
        transactions: Map::empty(),
    }
}

} // verus!
