//! Names of partitions and topics.

use crate::sorted_map::{Duplicate, SortKey};
use crate::text;
use crate::text::{compare_text, Relation};
use vstd::prelude::*;

verus! {

/// A partition of a topic.
#[derive(Debug, Clone, PartialEq, Eq, Hash)]
pub struct PartitionKey {
    pub topic: String,
    pub partition: i32,
}

/// The model of a partition key: the topic's name and the partition's index.
pub struct PartitionKeyView {
    pub topic: Seq<char>,
    pub partition: i32,
}

impl DeepView for PartitionKey {
    type V = PartitionKeyView;

    open spec fn deep_view(&self) -> PartitionKeyView {
        PartitionKeyView { topic: self.topic@, partition: self.partition }
    }
}

impl PartitionKey {
    pub fn new(topic: &str, partition: i32) -> (r: Self)
        ensures
            r.deep_view() == (PartitionKeyView { topic: topic@, partition }),
    {
        PartitionKey { topic: topic.to_owned(), partition }
    }
}

impl Duplicate for PartitionKey {
    fn duplicate(&self) -> (r: Self) {
        PartitionKey { topic: self.topic.clone(), partition: self.partition }
    }
}

/// Partitions are ordered by topic, then by index.
impl SortKey for PartitionKey {
    open spec fn before(a: PartitionKeyView, b: PartitionKeyView) -> bool {
        text::text_before(a.topic, b.topic) || (a.topic == b.topic && a.partition < b.partition)
    }

    proof fn irreflexive(a: PartitionKeyView) {
        text::text_before_irreflexive(a.topic);
    }

    proof fn transitive(a: PartitionKeyView, b: PartitionKeyView, c: PartitionKeyView) {
        if text::text_before(a.topic, b.topic) && text::text_before(b.topic, c.topic) {
            text::text_before_transitive(a.topic, b.topic, c.topic);
        }
    }

    proof fn total(a: PartitionKeyView, b: PartitionKeyView) {
        text::text_before_total(a.topic, b.topic);
    }

    fn compare(&self, other: &Self) -> (r: Relation) {
        match compare_text(self.topic.as_str(), other.topic.as_str()) {
            Relation::Before => Relation::Before,
            Relation::After => Relation::After,
            Relation::Same => if self.partition == other.partition {
                Relation::Same
            } else if self.partition < other.partition {
                Relation::Before
            } else {
                Relation::After
            },
        }
    }
}

/// A topic: its id, its name, and its number of partitions.
#[derive(Debug, Clone)]
pub struct TopicInfo {
    pub id: u128,
    pub name: String,
    pub partitions: i32,
}

/// The model of a topic.
pub struct TopicInfoView {
    pub id: u128,
    pub name: Seq<char>,
    pub partitions: i32,
}

impl DeepView for TopicInfo {
    type V = TopicInfoView;

    open spec fn deep_view(&self) -> TopicInfoView {
        TopicInfoView { id: self.id, name: self.name@, partitions: self.partitions }
    }
}

impl Duplicate for TopicInfo {
    fn duplicate(&self) -> (r: Self) {
        TopicInfo { id: self.id, name: self.name.clone(), partitions: self.partitions }
    }
}

} // verus!
