//! Dealing the partitions of topics out to the members that subscribe to them.

use crate::consumer_types;
use crate::consumer_types::{
    add_pair, list_hand, topic_names, ConsumerGroupState, ConsumerGroupStateView, ConsumerMemberState,
    ConsumerMemberStateView, ConsumerTopicAssignment, ConsumerTopicAssignmentView,
};
use crate::error;
use crate::error::{ControlError, ControlErrorView};
use crate::partition::{TopicInfo, TopicInfoView};
use crate::patterns;
use crate::patterns::{anchor, pattern_error, pattern_matches_whole};
use crate::sorted_map;
use crate::sorted_map::{Duplicate, SortedMap};
use crate::text;
use crate::text::{compare_text, join_three, same_text, Relation};
use vstd::prelude::*;

verus! {

pub const UNIFORM_ASSIGNOR: &'static str = "uniform";

pub const RANGE_ASSIGNOR: &'static str = "range";

/// Whether there is an assignor of that name.
pub open spec fn supported(name: Seq<char>) -> bool {
    name == UNIFORM_ASSIGNOR@ || name == RANGE_ASSIGNOR@
}

/// Checks the name of an assignor.
pub fn validate_assignor(name: &str) -> (r: Result<(), ControlError>)
    ensures
        error::outcome(r) == if supported(name@) {
            Ok::<(), ControlErrorView>(())
        } else {
            Err(ControlErrorView::UnsupportedConsumerAssignor(name@))
        },
{
    if same_text(name, UNIFORM_ASSIGNOR) || same_text(name, RANGE_ASSIGNOR) {
        Ok(())
    } else {
        Err(ControlError::UnsupportedConsumerAssignor(name.to_owned()))
    }
}

/// Whether no topic has a negative number of partitions.
pub open spec fn countable(topics: Seq<TopicInfoView>) -> bool {
    forall|i: int| 0 <= i < topics.len() ==> (#[trigger] topics[i]).partitions >= 0
}

/// Whether a member subscribes to a topic: by its name, or by its pattern where the topic is among
/// those that patterns are resolved to.
pub open spec fn subscribes(member: ConsumerMemberStateView, topic: TopicInfoView, resolved: Option<Map<u128, ()>>) -> bool {
    ||| member.subscribed_topic_names.contains(topic.name)
    ||| {
        &&& member.subscribed_topic_regex is Some
        &&& resolved is None || resolved->0.contains_key(topic.id)
        &&& patterns::matches_whole(member.subscribed_topic_regex->0, topic.name)
    }
}

/// The ids of the topics that a member subscribes to.
pub open spec fn subscribed_ids(member: ConsumerMemberStateView, topics: Seq<TopicInfoView>, resolved: Option<Map<u128, ()>>) -> Map<u128, ()> {
    consumer_types::as_keys(
        Set::new(|id: u128| exists|i: int| 0 <= i < topics.len() && (#[trigger] topics[i]).id == id && subscribes(member, topics[i], resolved)),
    )
}

/// The topics that each member subscribes to.
pub open spec fn subscriptions(
    members: Map<Seq<char>, ConsumerMemberStateView>,
    topics: Seq<TopicInfoView>,
    resolved: Option<Map<u128, ()>>,
) -> Map<Seq<char>, Map<u128, ()>> {
    members.map_values(|member: ConsumerMemberStateView| subscribed_ids(member, topics, resolved))
}

/// The error of the first of the members whose pattern is no regular expression.
pub open spec fn pattern_failure(ids: Seq<Seq<char>>, members: Map<Seq<char>, ConsumerMemberStateView>) -> Option<ControlErrorView>
    decreases ids.len(),
{
    if ids.len() == 0 {
        None
    } else {
        let pattern = members[ids[0]].subscribed_topic_regex;
        if pattern is Some && patterns::regex_error(patterns::anchored(pattern->0)) is Some {
            Some(
                ControlErrorView::InvalidRequest(
                    "invalid subscribed topic regex for "@ + ids[0] + ": "@ + patterns::regex_error(patterns::anchored(pattern->0))->0,
                ),
            )
        } else {
            pattern_failure(ids.drop_first(), members)
        }
    }
}

/// The members that subscribe to a topic, in order.
pub open spec fn subscribers(subs: Map<Seq<char>, Map<u128, ()>>, id: u128) -> Seq<Seq<char>> {
    sorted_map::sorted_keys::<String>(subscriber_set(subs, id))
}

/// The members that subscribe to a topic.
pub open spec fn subscriber_set(subs: Map<Seq<char>, Map<u128, ()>>, id: u128) -> Set<Seq<char>> {
    Set::new(|m: Seq<char>| subs.contains_key(m) && subs[m].contains_key(id))
}

/// The first partition of the `i`-th of `k` members in a topic of `n` partitions.
pub open spec fn range_start(n: int, k: int, i: int) -> int {
    i * (n / k) + if i < n % k {
        i
    } else {
        n % k
    }
}

/// Whether a partition lies in the range of the `i`-th of `k` members.
pub open spec fn in_range(n: int, k: int, i: int, p: int) -> bool {
    range_start(n, k, i) <= p < range_start(n, k, i + 1)
}

/// Whether the range assignor gives a member the partition of a topic.
pub open spec fn range_gives(topic: TopicInfoView, subs: Map<Seq<char>, Map<u128, ()>>, m: Seq<char>, p: i32) -> bool {
    let order = subscribers(subs, topic.id);
    order.contains(m) && in_range(topic.partitions as int, order.len() as int, order.index_of(m), p as int)
}

/// What the range assignor gives a member: of each topic that it subscribes to, a contiguous range
/// of partitions.
pub open spec fn range_hand(topics: Seq<TopicInfoView>, subs: Map<Seq<char>, Map<u128, ()>>, m: Seq<char>) -> Map<u128, Map<i32, ()>> {
    Map::new(
        |id: u128| subs[m].contains_key(id) && exists|i: int| 0 <= i < topics.len() && (#[trigger] topics[i]).id == id,
        |id: u128|
            consumer_types::as_keys(
                Set::new(|p: i32| exists|i: int| 0 <= i < topics.len() && (#[trigger] topics[i]).id == id && range_gives(topics[i], subs, m, p)),
            ),
    )
}

/// What the range assignor gives the members.
pub open spec fn range_hands(topics: Seq<TopicInfoView>, subs: Map<Seq<char>, Map<u128, ()>>) -> Map<Seq<char>, Map<u128, Map<i32, ()>>> {
    Map::new(|m: Seq<char>| subs.contains_key(m), |m: Seq<char>| range_hand(topics, subs, m))
}

/// A list of topics in the order of their names, with one more put in its place.
pub open spec fn put_topic(sorted: Seq<TopicInfoView>, topic: TopicInfoView) -> Seq<TopicInfoView>
    decreases sorted.len(),
{
    if sorted.len() == 0 || !text::text_before(topic.name, sorted.last().name) {
        sorted.push(topic)
    } else {
        put_topic(sorted.drop_last(), topic).push(sorted.last())
    }
}

/// The topics in the order of their names.
pub open spec fn by_name(topics: Seq<TopicInfoView>) -> Seq<TopicInfoView>
    decreases topics.len(),
{
    if topics.len() == 0 {
        topics
    } else {
        put_topic(by_name(topics.drop_last()), topics.last())
    }
}

/// The first `n` partitions of a topic.
pub open spec fn topic_turns(id: u128, n: nat) -> Seq<(u128, i32)> {
    Seq::new(n, |p: int| (id, p as i32))
}

/// The partitions of the topics, topic by topic.
pub open spec fn turns(topics: Seq<TopicInfoView>) -> Seq<(u128, i32)>
    decreases topics.len(),
{
    if topics.len() == 0 {
        Seq::empty()
    } else {
        turns(topics.drop_last()) + topic_turns(
            topics.last().id,
            (if topics.last().partitions > 0 {
                topics.last().partitions
            } else {
                0
            }) as nat,
        )
    }
}

/// The first of the members with the smallest load.
pub open spec fn least_loaded(order: Seq<Seq<char>>, loads: Map<Seq<char>, u128>) -> Option<Seq<char>>
    decreases order.len(),
{
    if order.len() == 0 {
        None
    } else {
        match least_loaded(order.drop_last(), loads) {
            None => Some(order.last()),
            Some(best) => if loads[order.last()] < loads[best] {
                Some(order.last())
            } else {
                Some(best)
            },
        }
    }
}

/// How far the uniform assignor has come: how many partitions each member has, and which.
pub struct Deal {
    pub loads: Map<Seq<char>, u128>,
    pub hands: Map<Seq<char>, Map<u128, Map<i32, ()>>>,
}

/// The uniform assignor: each partition in turn goes to the subscriber that has the fewest.
pub open spec fn dealt(subs: Map<Seq<char>, Map<u128, ()>>, turns: Seq<(u128, i32)>) -> Deal
    decreases turns.len(),
{
    if turns.len() == 0 {
        Deal {
            loads: Map::new(|m: Seq<char>| subs.contains_key(m), |m: Seq<char>| 0u128),
            hands: Map::new(|m: Seq<char>| subs.contains_key(m), |m: Seq<char>| Map::<u128, Map<i32, ()>>::empty()),
        }
    } else {
        let before = dealt(subs, turns.drop_last());
        let (id, p) = turns.last();
        match least_loaded(subscribers(subs, id), before.loads) {
            None => before,
            Some(m) => Deal {
                loads: before.loads.insert(m, (before.loads[m] + 1) as u128),
                hands: before.hands.insert(m, consumer_types::with_pair(before.hands[m], id, p)),
            },
        }
    }
}

/// What the uniform assignor gives the members.
pub open spec fn uniform_hands(topics: Seq<TopicInfoView>, subs: Map<Seq<char>, Map<u128, ()>>) -> Map<Seq<char>, Map<u128, Map<i32, ()>>> {
    dealt(subs, turns(by_name(topics))).hands
}

/// The hands as lists; topics that are not known any more are left out.
pub open spec fn to_lists(
    hands: Map<Seq<char>, Map<u128, Map<i32, ()>>>,
    topics: Seq<TopicInfoView>,
) -> Map<Seq<char>, Seq<ConsumerTopicAssignmentView>> {
    let names = consumer_types::names_of(topics);
    hands.map_values(
        |hand: Map<u128, Map<i32, ()>>|
            consumer_types::hand_list(sorted_map::filtered(hand, |id: u128, partitions: Map<i32, ()>| names.contains_key(id)), names),
    )
}

/// What an assignor gives members with these subscriptions.
pub open spec fn target_lists(
    assignor: Seq<char>,
    topics: Seq<TopicInfoView>,
    subs: Map<Seq<char>, Map<u128, ()>>,
) -> Map<Seq<char>, Seq<ConsumerTopicAssignmentView>> {
    to_lists(
        if assignor == RANGE_ASSIGNOR@ {
            range_hands(topics, subs)
        } else {
            uniform_hands(topics, subs)
        },
        topics,
    )
}

/// The target assignment of a group.
pub open spec fn targets(group: ConsumerGroupStateView, topics: Seq<TopicInfoView>, resolved: Option<Map<u128, ()>>) -> Result<
    Map<Seq<char>, Seq<ConsumerTopicAssignmentView>>,
    ControlErrorView,
> {
    if !supported(group.assignor_name) {
        Err(ControlErrorView::UnsupportedConsumerAssignor(group.assignor_name))
    } else {
        match pattern_failure(sorted_map::sorted_keys::<String>(group.members.dom()), group.members) {
            Some(error) => Err(error),
            None => Ok(target_lists(group.assignor_name, topics, subscriptions(group.members, topics, resolved))),
        }
    }
}

fn holds_text(list: &Vec<String>, text: &str) -> (r: bool)
    ensures
        r == list.deep_view().contains(text@),
{
    let ghost all = list.deep_view();
    let mut i: usize = 0;
    while i < list.len()
        invariant
            i <= list@.len(),
            all == list.deep_view(),
            forall|j: int| 0 <= j < i ==> all[j] != text@,
        decreases list@.len() - i,
    {
        assert(all[i as int] == list@[i as int]@);
        if same_text(list[i].as_str(), text) {
            return true;
        }
        i = i + 1;
    }
    false
}

fn does_subscribe(member: &ConsumerMemberState, topic: &TopicInfo, resolved: Option<&SortedMap<u128, ()>>) -> (r: bool)
    ensures
        r == subscribes(member.deep_view(), topic.deep_view(), resolved.deep_view()),
{
    if holds_text(&member.subscribed_topic_names, topic.name.as_str()) {
        return true;
    }
    match &member.subscribed_topic_regex {
        None => false,
        Some(pattern) => {
            let open = match resolved {
                None => true,
                Some(ids) => ids.contains_key(&topic.id),
            };
            open && pattern_matches_whole(pattern.as_str(), topic.name.as_str())
        },
    }
}

fn member_subscriptions(member: &ConsumerMemberState, topics: &[TopicInfo], resolved: Option<&SortedMap<u128, ()>>) -> (r: SortedMap<u128, ()>)
    ensures
        r.deep_view() == subscribed_ids(member.deep_view(), sorted_map::models(topics@), resolved.deep_view()),
{
    let ghost all = sorted_map::models(topics@);
    let ghost m = member.deep_view();
    let ghost open = resolved.deep_view();
    let mut r: SortedMap<u128, ()> = SortedMap::new();
    let mut i: usize = 0;
    assert(r.deep_view() =~= subscribed_ids(m, all.take(0), open));
    while i < topics.len()
        invariant
            i <= topics@.len(),
            all == sorted_map::models(topics@),
            m == member.deep_view(),
            open == resolved.deep_view(),
            r.deep_view() == subscribed_ids(m, all.take(i as int), open),
        decreases topics@.len() - i,
    {
        let ghost small = all.take(i as int);
        let ghost large = all.take(i + 1);
        let topic = &topics[i];
        let yes = does_subscribe(member, topic, resolved);
        if yes {
            r.insert(topic.id, ());
        }
        proof {
            assert(large[i as int] == topic.deep_view());
            let want = subscribed_ids(m, large, open);
            assert forall|id: u128| want.dom().contains(id) == (subscribed_ids(m, small, open).dom().contains(id) || (yes && id == topic.id)) by {
                if subscribed_ids(m, small, open).dom().contains(id) {
                    let j = choose|j: int| 0 <= j < small.len() && (#[trigger] small[j]).id == id && subscribes(m, small[j], open);
                    assert(large[j] == small[j]);
                }
                if want.dom().contains(id) {
                    let j = choose|j: int| 0 <= j < large.len() && (#[trigger] large[j]).id == id && subscribes(m, large[j], open);
                    if j < i {
                        assert(small[j] == large[j]);
                    }
                }
            }
            assert(r.deep_view() =~= want);
        }
        i = i + 1;
    }
    assert(all.take(all.len() as int) =~= all);
    r
}

fn find_pattern_failure(members: &SortedMap<String, ConsumerMemberState>) -> (r: Option<ControlError>)
    ensures
        r.deep_view() == pattern_failure(sorted_map::sorted_keys::<String>(members.deep_view().dom()), members.deep_view()),
{
    let ids = members.keys();
    let ghost all = ids.deep_view();
    let ghost m = members.deep_view();
    let mut i: usize = 0;
    assert(all.skip(0) =~= all);
    while i < ids.len()
        invariant
            i <= ids@.len(),
            all == ids.deep_view(),
            all.to_set() == m.dom(),
            m == members.deep_view(),
            all == sorted_map::sorted_keys::<String>(m.dom()),
            pattern_failure(all, m) == pattern_failure(all.skip(i as int), m),
        decreases ids@.len() - i,
    {
        proof {
            assert(all[i as int] == ids@[i as int].deep_view());
            assert(all.contains(all[i as int]));
            assert(m.dom().contains(all[i as int]));
            assert(all.skip(i as int)[0] == all[i as int]);
        }
        if let Some(member) = members.get(&ids[i]) {
            if let Some(pattern) = &member.subscribed_topic_regex {
                if let Some(error) = pattern_error(anchor(pattern.as_str()).as_str()) {
                    let mut message = join_three("invalid subscribed topic regex for ", ids[i].as_str(), ": ");
                    message.append(error.as_str());
                    return Some(ControlError::InvalidRequest(message));
                }
            }
        }
        assert(all.skip(i as int).drop_first() =~= all.skip(i + 1));
        i = i + 1;
    }
    None
}

/// The topics that each member subscribes to.
pub fn all_subscriptions(
    members: &SortedMap<String, ConsumerMemberState>,
    topics: &[TopicInfo],
    resolved: Option<&SortedMap<u128, ()>>,
) -> (r: SortedMap<String, SortedMap<u128, ()>>)
    ensures
        r.deep_view() == subscriptions(members.deep_view(), sorted_map::models(topics@), resolved.deep_view()),
{
    let ids = members.keys();
    let ghost all = ids.deep_view();
    let ghost m = members.deep_view();
    let ghost want = subscriptions(m, sorted_map::models(topics@), resolved.deep_view());
    let mut r: SortedMap<String, SortedMap<u128, ()>> = SortedMap::new();
    let mut i: usize = 0;
    while i < ids.len()
        invariant
            i <= ids@.len(),
            all == ids.deep_view(),
            all.to_set() == m.dom(),
            m == members.deep_view(),
            want == subscriptions(m, sorted_map::models(topics@), resolved.deep_view()),
            forall|id: Seq<char>| #[trigger] r.deep_view().contains_key(id) ==> want.contains_key(id) && r.deep_view()[id] == want[id],
            forall|j: int| 0 <= j < i ==> r.deep_view().contains_key(#[trigger] all[j]),
        decreases ids@.len() - i,
    {
        proof {
            assert(all[i as int] == ids@[i as int].deep_view());
            assert(all.contains(all[i as int]));
            assert(m.dom().contains(all[i as int]));
        }
        if let Some(member) = members.get(&ids[i]) {
            r.insert(ids[i].clone(), member_subscriptions(member, topics, resolved));
        }
        i = i + 1;
    }
    proof {
        assert forall|id: Seq<char>| #[trigger] want.dom().contains(id) implies r.deep_view().dom().contains(id) by {
            assert(all.to_set().contains(id));
            assert(all.contains(id));
            let j = choose|j: int| 0 <= j < all.len() && all[j] == id;
            assert(r.deep_view().contains_key(all[j]));
        }
        assert(r.deep_view().dom() =~= want.dom());
        assert(r.deep_view() =~= want);
    }
    r
}

/// The members that subscribe to a topic, in order.
fn subscribed_members(subs: &SortedMap<String, SortedMap<u128, ()>>, id: u128) -> (r: Vec<String>)
    ensures
        r.deep_view() == subscribers(subs.deep_view(), id),
        sorted_map::lists_in_order::<String>(r.deep_view(), subscriber_set(subs.deep_view(), id)),
{
    let ids = subs.keys();
    let ghost all = ids.deep_view();
    let ghost m = subs.deep_view();
    let mut found: SortedMap<String, ()> = SortedMap::new();
    let mut i: usize = 0;
    while i < ids.len()
        invariant
            i <= ids@.len(),
            all == ids.deep_view(),
            all.to_set() == m.dom(),
            m == subs.deep_view(),
            forall|x: Seq<char>| #[trigger] found.deep_view().contains_key(x) ==> subscriber_set(m, id).contains(x),
            forall|j: int| 0 <= j < i && m[all[j]].contains_key(id) ==> found.deep_view().contains_key(#[trigger] all[j]),
        decreases ids@.len() - i,
    {
        proof {
            assert(all[i as int] == ids@[i as int].deep_view());
            assert(all.contains(all[i as int]));
            assert(m.dom().contains(all[i as int]));
        }
        if let Some(topics) = subs.get(&ids[i]) {
            if topics.contains_key(&id) {
                found.insert(ids[i].clone(), ());
            }
        }
        i = i + 1;
    }
    proof {
        assert forall|x: Seq<char>| found.deep_view().dom().contains(x) == subscriber_set(m, id).contains(x) by {
            if subscriber_set(m, id).contains(x) {
                assert(all.to_set().contains(x));
                assert(all.contains(x));
                let j = choose|j: int| 0 <= j < all.len() && all[j] == x;
                assert(found.deep_view().contains_key(all[j]));
            }
            if found.deep_view().dom().contains(x) {
                assert(found.deep_view().contains_key(x));
            }
        }
        assert(found.deep_view().dom() =~= subscriber_set(m, id));
    }
    found.keys()
}

pub proof fn range_bounds(n: int, k: int, i: int)
    requires
        0 <= n,
        0 < k,
        0 <= i <= k,
    ensures
        0 <= range_start(n, k, i) <= n,
        i < k ==> range_start(n, k, i) <= range_start(n, k, i + 1) <= n,
        range_start(n, k, 0) == 0,
        range_start(n, k, k) == n,
        0 <= i * (n / k) <= n,
{
    let b = n / k;
    let e = n % k;
    vstd::arithmetic::div_mod::lemma_fundamental_div_mod(n, k);
    assert(b >= 0 && 0 <= e < k) by (nonlinear_arith)
        requires
            n >= 0,
            k > 0,
            b == n / k,
            e == n % k,
    ;
    assert(0 <= i * b <= k * b) by (nonlinear_arith)
        requires
            0 <= i <= k,
            b >= 0,
    ;
    assert((i + 1) * b == i * b + b) by (nonlinear_arith);
    assert(i < k ==> (i + 1) * b <= k * b) by (nonlinear_arith)
        requires
            0 <= i <= k,
            b >= 0,
    ;
    assert(0 * b == 0) by (nonlinear_arith);
}

/// Gives a member its range of a topic.
fn deal_range(
    hand: &mut SortedMap<u128, SortedMap<i32, ()>>,
    topic: &TopicInfo,
    order: &Vec<String>,
    m: &String,
    subs: Ghost<Map<Seq<char>, Map<u128, ()>>>,
)
    requires
        topic.partitions >= 0,
        order.deep_view() == subscribers(subs@, topic.id),
        order.deep_view().contains(m@),
        order.deep_view().no_duplicates(),
    ensures
        final(hand).deep_view() == old(hand).deep_view().insert(
            topic.id,
            consumer_types::as_keys(
                Set::new(
                    |p: i32|
                        (old(hand).deep_view().contains_key(topic.id) && old(hand).deep_view()[topic.id].contains_key(p)) || range_gives(
                            topic.deep_view(),
                            subs@,
                            m@,
                            p,
                        ),
                ),
            ),
        ),
{
    let ghost before = hand.deep_view();
    let ghost t = topic.deep_view();
    let ghost members = order.deep_view();
    let mut index: usize = 0;
    while !same_text(order[index].as_str(), m.as_str())
        invariant
            index < order.len(),
            members == order.deep_view(),
            members.contains(m@),
            forall|j: int| 0 <= j < index ==> members[j] != m@,
        ensures
            index < order@.len(),
            members[index as int] == m@,
        decreases order@.len() - index,
    {
        proof {
            assert(members[index as int] == order@[index as int]@);
            let j = choose|j: int| 0 <= j < members.len() && members[j] == m@;
            assert(j > index);
        }
        index = index + 1;
    }
    let n: u128 = topic.partitions as u128;
    let k: u128 = order.len() as u128;
    proof {
        assert(members.index_of(m@) == index);
        range_bounds(n as int, k as int, index as int);
        range_bounds(n as int, k as int, index + 1);
    }
    let base: u128 = n / k;
    let extra: u128 = n % k;
    let i: u128 = index as u128;
    let start: u128 = i * base + if i < extra {
        i
    } else {
        extra
    };
    let end: u128 = (i + 1) * base + if i + 1 < extra {
        i + 1
    } else {
        extra
    };
    let mut partitions = match hand.remove(&topic.id) {
        Some(partitions) => partitions,
        None => SortedMap::new(),
    };
    let ghost held = partitions.deep_view();
    let mut p: u128 = start;
    assert(held =~= consumer_types::as_keys(Set::new(|q: i32| held.contains_key(q) || start <= q < p)));
    while p < end
        invariant
            start <= p <= end,
            end <= n,
            n <= i32::MAX,
            partitions.deep_view() == consumer_types::as_keys(Set::new(|q: i32| held.contains_key(q) || start <= q < p)),
        decreases end - p,
    {
        partitions.insert(p as i32, ());
        p = p + 1;
        assert(partitions.deep_view() =~= consumer_types::as_keys(Set::new(|q: i32| held.contains_key(q) || start <= q < p)));
    }
    let ghost after = partitions.deep_view();
    hand.insert(topic.id, partitions);
    proof {
        assert(range_start(n as int, k as int, index as int) == start);
        assert(range_start(n as int, k as int, index + 1) == end);
        let want = consumer_types::as_keys(Set::new(|q: i32| (before.contains_key(t.id) && before[t.id].contains_key(q))
            || range_gives(t, subs@, m@, q)));
        assert forall|q: i32| range_gives(t, subs@, m@, q) == (start <= q < end) by {}
        assert(after =~= want);
        assert(before.remove(t.id).insert(t.id, after) =~= before.insert(t.id, want));
    }
}

fn member_range(topics: &[TopicInfo], subs: &SortedMap<String, SortedMap<u128, ()>>, m: &String) -> (r: SortedMap<u128, SortedMap<i32, ()>>)
    requires
        countable(sorted_map::models(topics@)),
        subs.deep_view().contains_key(m@),
    ensures
        r.deep_view() == range_hand(sorted_map::models(topics@), subs.deep_view(), m@),
{
    let ghost all = sorted_map::models(topics@);
    let ghost s = subs.deep_view();
    let mut hand: SortedMap<u128, SortedMap<i32, ()>> = SortedMap::new();
    let mut i: usize = 0;
    assert(hand.deep_view() =~= range_hand(all.take(0), s, m@));
    while i < topics.len()
        invariant
            i <= topics@.len(),
            all == sorted_map::models(topics@),
            countable(all),
            s == subs.deep_view(),
            s.contains_key(m@),
            hand.deep_view() == range_hand(all.take(i as int), s, m@),
        decreases topics@.len() - i,
    {
        let topic = &topics[i];
        let ghost small = all.take(i as int);
        let ghost large = all.take(i + 1);
        let ghost before = hand.deep_view();
        let subscribed = match subs.get(m) {
            Some(ids) => ids.contains_key(&topic.id),
            None => false,
        };
        proof {
            assert(all[i as int] == topic.deep_view());
            assert(large[i as int] == topic.deep_view());
        }
        if subscribed {
            let order = subscribed_members(subs, topic.id);
            proof {
                assert(subscriber_set(s, topic.id).contains(m@));
                assert(order.deep_view().to_set().contains(m@));
                sorted_map::strictly_sorted_unique::<String>(order.deep_view());
            }
            deal_range(&mut hand, topic, &order, m, Ghost(s));
        }
        proof {
            let t = topic.deep_view();
            let want = range_hand(large, s, m@);
            assert forall|id: u128| want.dom().contains(id) == hand.deep_view().dom().contains(id) by {
                if before.dom().contains(id) {
                    let j = choose|j: int| 0 <= j < small.len() && (#[trigger] small[j]).id == id;
                    assert(large[j] == small[j]);
                }
                if want.dom().contains(id) {
                    let j = choose|j: int| 0 <= j < large.len() && (#[trigger] large[j]).id == id;
                    if j < i {
                        assert(small[j] == large[j]);
                    }
                }
            }
            assert(want.dom() =~= hand.deep_view().dom());
            assert forall|id: u128| #[trigger] want.dom().contains(id) implies want[id] == hand.deep_view()[id] by {
                let have = hand.deep_view()[id];
                assert forall|p: i32| #[trigger] want[id].dom().contains(p) == have.dom().contains(p) by {
                    if exists|j: int| 0 <= j < small.len() && (#[trigger] small[j]).id == id && range_gives(small[j], s, m@, p) {
                        let j = choose|j: int| 0 <= j < small.len() && (#[trigger] small[j]).id == id && range_gives(small[j], s, m@, p);
                        assert(large[j] == small[j]);
                    }
                    if exists|j: int| 0 <= j < large.len() && (#[trigger] large[j]).id == id && range_gives(large[j], s, m@, p) {
                        let j = choose|j: int| 0 <= j < large.len() && (#[trigger] large[j]).id == id && range_gives(large[j], s, m@, p);
                        if j < i {
                            assert(small[j] == large[j]);
                        }
                    }
                    if before.dom().contains(id) && before[id].contains_key(p) {
                        let j = choose|j: int| 0 <= j < small.len() && (#[trigger] small[j]).id == id && range_gives(small[j], s, m@, p);
                        assert(large[j] == small[j]);
                    }
                }
                assert(want[id] =~= have);
            }
            assert(want =~= hand.deep_view());
        }
        i = i + 1;
    }
    assert(all.take(all.len() as int) =~= all);
    hand
}

/// Gives each member of each topic that it subscribes to a contiguous range of partitions.
pub fn range_assign(
    topics: &[TopicInfo],
    subs: &SortedMap<String, SortedMap<u128, ()>>,
) -> (r: SortedMap<String, SortedMap<u128, SortedMap<i32, ()>>>)
    requires
        countable(sorted_map::models(topics@)),
    ensures
        r.deep_view() == range_hands(sorted_map::models(topics@), subs.deep_view()),
{
    let ids = subs.keys();
    let ghost all = ids.deep_view();
    let ghost s = subs.deep_view();
    let ghost want = range_hands(sorted_map::models(topics@), s);
    let mut r: SortedMap<String, SortedMap<u128, SortedMap<i32, ()>>> = SortedMap::new();
    let mut i: usize = 0;
    while i < ids.len()
        invariant
            i <= ids@.len(),
            all == ids.deep_view(),
            all.to_set() == s.dom(),
            s == subs.deep_view(),
            countable(sorted_map::models(topics@)),
            want == range_hands(sorted_map::models(topics@), s),
            forall|id: Seq<char>| #[trigger] r.deep_view().contains_key(id) ==> want.contains_key(id) && r.deep_view()[id] == want[id],
            forall|j: int| 0 <= j < i ==> r.deep_view().contains_key(#[trigger] all[j]),
        decreases ids@.len() - i,
    {
        proof {
            assert(all[i as int] == ids@[i as int].deep_view());
            assert(all.contains(all[i as int]));
            assert(s.dom().contains(all[i as int]));
        }
        let hand = member_range(topics, subs, &ids[i]);
        r.insert(ids[i].clone(), hand);
        i = i + 1;
    }
    proof {
        assert forall|id: Seq<char>| #[trigger] want.dom().contains(id) implies r.deep_view().dom().contains(id) by {
            assert(all.to_set().contains(id));
            assert(all.contains(id));
            let j = choose|j: int| 0 <= j < all.len() && all[j] == id;
            assert(r.deep_view().contains_key(all[j]));
        }
        assert(r.deep_view().dom() =~= want.dom());
        assert(r.deep_view() =~= want);
    }
    r
}

proof fn topic_is_put(sorted: Seq<TopicInfoView>, topic: TopicInfoView, at: int)
    requires
        0 <= at <= sorted.len(),
        forall|j: int| at <= j < sorted.len() ==> text::text_before(topic.name, (#[trigger] sorted[j]).name),
        at == 0 || !text::text_before(topic.name, sorted[at - 1].name),
    ensures
        put_topic(sorted, topic) == sorted.insert(at, topic),
    decreases sorted.len(),
{
    if at < sorted.len() {
        let rest = sorted.drop_last();
        assert forall|j: int| at <= j < rest.len() implies text::text_before(topic.name, (#[trigger] rest[j]).name) by {
            assert(rest[j] == sorted[j]);
        }
        topic_is_put(rest, topic, at);
        assert(text::text_before(topic.name, sorted[sorted.len() - 1].name));
        assert(sorted.insert(at, topic) =~= rest.insert(at, topic).push(sorted.last()));
    } else {
        assert(sorted.insert(at, topic) =~= sorted.push(topic));
    }
}

/// Copies of the topics in the order of their names.
fn sort_by_name(topics: &[TopicInfo]) -> (r: Vec<TopicInfo>)
    ensures
        r.deep_view() == by_name(sorted_map::models(topics@)),
{
    let ghost all = sorted_map::models(topics@);
    let mut sorted: Vec<TopicInfo> = Vec::new();
    let mut i: usize = 0;
    assert(sorted.deep_view() =~= by_name(all.take(0)));
    while i < topics.len()
        invariant
            i <= topics@.len(),
            all == sorted_map::models(topics@),
            sorted.deep_view() == by_name(all.take(i as int)),
        decreases topics@.len() - i,
    {
        let topic = topics[i].duplicate();
        let ghost before = sorted.deep_view();
        let mut at: usize = sorted.len();
        while at > 0 && compare_text(topic.name.as_str(), sorted[at - 1].name.as_str()) == Relation::Before
            invariant
                at <= sorted@.len(),
                before == sorted.deep_view(),
                forall|j: int| at <= j < before.len() ==> text::text_before(topic.deep_view().name, (#[trigger] before[j]).name),
            ensures
                at <= sorted@.len(),
                forall|j: int| at <= j < before.len() ==> text::text_before(topic.deep_view().name, (#[trigger] before[j]).name),
                at == 0 || !text::text_before(topic.deep_view().name, before[at - 1].name),
            decreases at,
        {
            at = at - 1;
        }
        proof {
            assert(before.len() == sorted@.len());
            topic_is_put(before, topic.deep_view(), at as int);
            assert(all.take(i + 1).drop_last() =~= all.take(i as int));
            assert(all.take(i + 1).last() == topic.deep_view());
        }
        sorted.insert(at, topic);
        assert(sorted.deep_view() =~= before.insert(at as int, topic.deep_view()));
        i = i + 1;
    }
    assert(all.take(all.len() as int) =~= all);
    sorted
}

pub proof fn deals_keep_members(subs: Map<Seq<char>, Map<u128, ()>>, turns: Seq<(u128, i32)>)
    requires
        turns.len() <= u128::MAX,
        forall|id: u128| sorted_map::lists_in_order::<String>(#[trigger] subscribers(subs, id), subscriber_set(subs, id)),
    ensures
        dealt(subs, turns).loads.dom() == subs.dom(),
        dealt(subs, turns).hands.dom() == subs.dom(),
        forall|m: Seq<char>| #[trigger] subs.contains_key(m) ==> dealt(subs, turns).loads[m] <= turns.len(),
    decreases turns.len(),
{
    if turns.len() == 0 {
        assert(dealt(subs, turns).loads.dom() =~= subs.dom());
        assert(dealt(subs, turns).hands.dom() =~= subs.dom());
    } else {
        let before = dealt(subs, turns.drop_last());
        deals_keep_members(subs, turns.drop_last());
        let (id, p) = turns.last();
        let order = subscribers(subs, id);
        least_loaded_is_member(order, before.loads);
        match least_loaded(order, before.loads) {
            None => {},
            Some(m) => {
                assert(order.to_set().contains(m));
                assert(subs.contains_key(m));
                assert(dealt(subs, turns).loads.dom() =~= subs.dom());
                assert(dealt(subs, turns).hands.dom() =~= subs.dom());
            },
        }
    }
}

pub proof fn least_loaded_is_member(order: Seq<Seq<char>>, loads: Map<Seq<char>, u128>)
    ensures
        least_loaded(order, loads) is None <==> order.len() == 0,
        least_loaded(order, loads) is Some ==> order.contains(least_loaded(order, loads)->0),
    decreases order.len(),
{
    if order.len() > 0 {
        let rest = order.drop_last();
        least_loaded_is_member(rest, loads);
        assert(order[order.len() - 1] == order.last());
        if least_loaded(rest, loads) is Some {
            let best = least_loaded(rest, loads)->0;
            let j = choose|j: int| 0 <= j < rest.len() && rest[j] == best;
            assert(order[j] == best);
        }
    }
}

fn find_least_loaded(order: &Vec<String>, loads: &SortedMap<String, u128>) -> (r: Option<String>)
    requires
        forall|j: int| 0 <= j < order@.len() ==> loads.deep_view().contains_key((#[trigger] order.deep_view()[j])),
    ensures
        r.deep_view() == least_loaded(order.deep_view(), loads.deep_view()),
{
    let ghost all = order.deep_view();
    let mut best: Option<usize> = None;
    let mut best_load: u128 = 0;
    let mut i: usize = 0;
    assert(all.take(0) =~= Seq::<Seq<char>>::empty());
    while i < order.len()
        invariant
            i <= order@.len(),
            all == order.deep_view(),
            forall|j: int| 0 <= j < order@.len() ==> loads.deep_view().contains_key((#[trigger] all[j])),
            best is None ==> least_loaded(all.take(i as int), loads.deep_view()) is None,
            best is Some ==> best->0 < i && least_loaded(all.take(i as int), loads.deep_view()) == Some(all[best->0 as int]) && best_load
                == loads.deep_view()[all[best->0 as int]],
        decreases order@.len() - i,
    {
        proof {
            assert(all[i as int] == order@[i as int]@);
            assert(all.take(i + 1).drop_last() =~= all.take(i as int));
            assert(all.take(i + 1).last() == all[i as int]);
        }
        let load: u128 = match loads.get(&order[i]) {
            Some(load) => *load,
            None => 0,
        };
        if best.is_none() || load < best_load {
            best = Some(i);
            best_load = load;
        }
        i = i + 1;
    }
    assert(all.take(all.len() as int) =~= all);
    match best {
        None => None,
        Some(b) => {
            assert(all[b as int] == order@[b as int]@);
            Some(order[b].clone())
        },
    }
}

pub proof fn subscriber_lists(subs: Map<Seq<char>, Map<u128, ()>>)
    requires
        subs.dom().finite(),
    ensures
        forall|id: u128| sorted_map::lists_in_order::<String>(#[trigger] subscribers(subs, id), subscriber_set(subs, id)),
{
    assert forall|id: u128| sorted_map::lists_in_order::<String>(#[trigger] subscribers(subs, id), subscriber_set(subs, id)) by {
        assert(subscriber_set(subs, id).subset_of(subs.dom()));
        vstd::set_lib::lemma_len_subset(subscriber_set(subs, id), subs.dom());
        sorted_map::finite_sets_are_listed::<String>(subscriber_set(subs, id));
    }
}

/// The uniform assignor gives every member a hand, if an empty one.
pub proof fn uniform_covers_members(topics: Seq<TopicInfoView>, subs: Map<Seq<char>, Map<u128, ()>>)
    requires
        subs.dom().finite(),
    ensures
        uniform_hands(topics, subs).dom() == subs.dom(),
{
    subscriber_lists(subs);
    hands_cover_members(subs, turns(by_name(topics)));
}

proof fn hands_cover_members(subs: Map<Seq<char>, Map<u128, ()>>, turns: Seq<(u128, i32)>)
    requires
        forall|id: u128| sorted_map::lists_in_order::<String>(#[trigger] subscribers(subs, id), subscriber_set(subs, id)),
    ensures
        dealt(subs, turns).hands.dom() == subs.dom(),
    decreases turns.len(),
{
    if turns.len() == 0 {
        assert(dealt(subs, turns).hands.dom() =~= subs.dom());
    } else {
        let before = dealt(subs, turns.drop_last());
        hands_cover_members(subs, turns.drop_last());
        let (id, p) = turns.last();
        let order = subscribers(subs, id);
        least_loaded_is_member(order, before.loads);
        if let Some(m) = least_loaded(order, before.loads) {
            assert(order.to_set().contains(m));
            assert(subs.contains_key(m));
            assert(dealt(subs, turns).hands.dom() =~= subs.dom());
        }
    }
}

/// Gives each partition in turn to the subscriber that has the fewest.
pub fn uniform_assign(
    topics: &[TopicInfo],
    subs: &SortedMap<String, SortedMap<u128, ()>>,
) -> (r: SortedMap<String, SortedMap<u128, SortedMap<i32, ()>>>)
    ensures
        r.deep_view() == uniform_hands(sorted_map::models(topics@), subs.deep_view()),
{
    let ghost s = subs.deep_view();
    let sorted = sort_by_name(topics);
    let ghost all = sorted.deep_view();
    let ids = subs.keys();
    let ghost members = ids.deep_view();
    let mut loads: SortedMap<String, u128> = SortedMap::new();
    let mut hands: SortedMap<String, SortedMap<u128, SortedMap<i32, ()>>> = SortedMap::new();
    let mut i: usize = 0;
    let ghost start = dealt(s, Seq::empty());
    while i < ids.len()
        invariant
            i <= ids@.len(),
            members == ids.deep_view(),
            members.to_set() == s.dom(),
            start == dealt(s, Seq::empty()),
            forall|m: Seq<char>| #[trigger] loads.deep_view().contains_key(m) ==> start.loads.contains_key(m) && loads.deep_view()[m] == 0,
            forall|m: Seq<char>| #[trigger] hands.deep_view().contains_key(m) ==> start.hands.contains_key(m)
                && hands.deep_view()[m] == Map::<u128, Map<i32, ()>>::empty(),
            forall|j: int| 0 <= j < i ==> loads.deep_view().contains_key(#[trigger] members[j]) && hands.deep_view().contains_key(members[j]),
        decreases ids@.len() - i,
    {
        proof {
            assert(members[i as int] == ids@[i as int].deep_view());
            assert(members.contains(members[i as int]));
            assert(s.dom().contains(members[i as int]));
        }
        loads.insert(ids[i].clone(), 0);
        hands.insert(ids[i].clone(), SortedMap::new());
        i = i + 1;
    }
    proof {
        assert forall|m: Seq<char>| #[trigger] s.dom().contains(m) implies loads.deep_view().contains_key(m) && hands.deep_view().contains_key(m) by {
            assert(members.to_set().contains(m));
            assert(members.contains(m));
            let j = choose|j: int| 0 <= j < members.len() && members[j] == m;
            assert(loads.deep_view().contains_key(members[j]));
        }
        assert(loads.deep_view().dom() =~= start.loads.dom());
        assert(hands.deep_view().dom() =~= start.hands.dom());
        assert(loads.deep_view() =~= start.loads);
        assert(hands.deep_view() =~= start.hands);
        sorted_map::strictly_sorted_unique::<String>(members);
        subscriber_lists(s);
        assert(all.take(0) =~= Seq::<TopicInfoView>::empty());
    }
    let mut t: usize = 0;
    while t < sorted.len()
        invariant
            t <= sorted@.len(),
            all == sorted.deep_view(),
            s == subs.deep_view(),
            forall|id: u128| sorted_map::lists_in_order::<String>(#[trigger] subscribers(s, id), subscriber_set(s, id)),
            loads.deep_view() == dealt(s, turns(all.take(t as int))).loads,
            hands.deep_view() == dealt(s, turns(all.take(t as int))).hands,
            turns(all.take(t as int)).len() <= t * 0x8000_0000,
        decreases sorted@.len() - t,
    {
        let id: u128 = sorted[t].id;
        let n: i32 = sorted[t].partitions;
        let order = subscribed_members(subs, id);
        let ghost done = turns(all.take(t as int));
        let mut p: i32 = 0;
        assert(done + topic_turns(id, 0) =~= done);
        while p < n
            invariant
                0 <= p,
                p <= n || (p == 0 && n <= 0),
                t < sorted@.len(),
                t < usize::MAX,
                s == subs.deep_view(),
                forall|id: u128| sorted_map::lists_in_order::<String>(#[trigger] subscribers(s, id), subscriber_set(s, id)),
                order.deep_view() == subscribers(s, id),
                done.len() <= t * 0x8000_0000,
                loads.deep_view() == dealt(s, done + topic_turns(id, p as nat)).loads,
                hands.deep_view() == dealt(s, done + topic_turns(id, p as nat)).hands,
            decreases n - p,
        {
            let ghost before = done + topic_turns(id, p as nat);
            let ghost after = done + topic_turns(id, (p + 1) as nat);
            proof {
                assert(after.drop_last() =~= before);
                assert(after.last() == (id, p));
                deals_keep_members(s, before);
                assert forall|j: int| 0 <= j < order@.len() implies loads.deep_view().contains_key(#[trigger] order.deep_view()[j]) by {
                    assert(order.deep_view().contains(order.deep_view()[j]));
                    assert(order.deep_view().to_set().contains(order.deep_view()[j]));
                }
                least_loaded_is_member(order.deep_view(), loads.deep_view());
            }
            if let Some(m) = find_least_loaded(&order, &loads) {
                proof {
                    assert(order.deep_view().to_set().contains(m@));
                    assert(s.contains_key(m@));
                }
                let load: u128 = loads.remove(&m).unwrap();
                loads.insert(m.clone(), load + 1);
                let mut hand = hands.remove(&m).unwrap();
                add_pair(&mut hand, id, p);
                let ghost dealt_hand = hand.deep_view();
                hands.insert(m.clone(), hand);
                proof {
                    let d = dealt(s, before);
                    assert(d.loads.remove(m@).insert(m@, (load + 1) as u128) =~= d.loads.insert(m@, (load + 1) as u128));
                    assert(d.hands.remove(m@).insert(m@, dealt_hand) =~= d.hands.insert(m@, dealt_hand));
                }
            }
            p = p + 1;
        }
        proof {
            assert(all.take(t + 1).drop_last() =~= all.take(t as int));
            assert(all.take(t + 1).last() == sorted@[t as int].deep_view());
            let count: nat = (if n > 0 { n } else { 0 }) as nat;
            assert(turns(all.take(t + 1)) == done + topic_turns(id, count));
            assert(topic_turns(id, count).len() == count);
        }
        t = t + 1;
    }
    assert(all.take(all.len() as int) =~= all);
    hands
}

/// Lists the hands of the members.
pub fn to_assignments(
    hands: &SortedMap<String, SortedMap<u128, SortedMap<i32, ()>>>,
    topics: &[TopicInfo],
) -> (r: SortedMap<String, Vec<ConsumerTopicAssignment>>)
    ensures
        r.deep_view() == to_lists(hands.deep_view(), sorted_map::models(topics@)),
{
    let names = topic_names(topics);
    let ids = hands.keys();
    let ghost all = ids.deep_view();
    let ghost h = hands.deep_view();
    let ghost want = to_lists(h, sorted_map::models(topics@));
    let mut r: SortedMap<String, Vec<ConsumerTopicAssignment>> = SortedMap::new();
    let mut i: usize = 0;
    while i < ids.len()
        invariant
            i <= ids@.len(),
            all == ids.deep_view(),
            all.to_set() == h.dom(),
            h == hands.deep_view(),
            names.deep_view() == consumer_types::names_of(sorted_map::models(topics@)),
            want == to_lists(h, sorted_map::models(topics@)),
            forall|id: Seq<char>| #[trigger] r.deep_view().contains_key(id) ==> want.contains_key(id) && r.deep_view()[id] == want[id],
            forall|j: int| 0 <= j < i ==> r.deep_view().contains_key(#[trigger] all[j]),
        decreases ids@.len() - i,
    {
        proof {
            assert(all[i as int] == ids@[i as int].deep_view());
            assert(all.contains(all[i as int]));
            assert(h.dom().contains(all[i as int]));
        }
        if let Some(hand) = hands.get(&ids[i]) {
            let mut known = hand.duplicate();
            let ghost keep = |id: u128, partitions: Map<i32, ()>| names.deep_view().contains_key(id);
            let keeps = |id: &u128, partitions: &SortedMap<i32, ()>| -> (b: bool)
                ensures b == keep(id.deep_view(), partitions.deep_view())
            {
                names.contains_key(id)
            };
            known.retain(keeps, Ghost(keep));
            r.insert(ids[i].clone(), list_hand(&known, &names));
        }
        i = i + 1;
    }
    proof {
        assert forall|id: Seq<char>| #[trigger] want.dom().contains(id) implies r.deep_view().dom().contains(id) by {
            assert(all.to_set().contains(id));
            assert(all.contains(id));
            let j = choose|j: int| 0 <= j < all.len() && all[j] == id;
            assert(r.deep_view().contains_key(all[j]));
        }
        assert(r.deep_view().dom() =~= want.dom());
        assert(r.deep_view() =~= want);
    }
    r
}

/// Deals the partitions of topics out to members with these subscriptions.
pub fn assign_subscriptions(
    assignor: &str,
    topics: &[TopicInfo],
    subs: &SortedMap<String, SortedMap<u128, ()>>,
) -> (r: SortedMap<String, Vec<ConsumerTopicAssignment>>)
    requires
        countable(sorted_map::models(topics@)),
    ensures
        r.deep_view() == target_lists(assignor@, sorted_map::models(topics@), subs.deep_view()),
{
    let hands = if same_text(assignor, RANGE_ASSIGNOR) {
        range_assign(topics, subs)
    } else {
        uniform_assign(topics, subs)
    };
    to_assignments(&hands, topics)
}

/// Computes the target assignment of a group.
pub fn assign_with_regex_topics(group: &ConsumerGroupState, topics: &[TopicInfo], resolved_regex_topics: Option<&SortedMap<u128, ()>>) -> (r: Result<
    SortedMap<String, Vec<ConsumerTopicAssignment>>,
    ControlError,
>)
    requires
        countable(sorted_map::models(topics@)),
    ensures
        error::outcome(r) == targets(group.deep_view(), sorted_map::models(topics@), resolved_regex_topics.deep_view()),
{
    if let Err(error) = validate_assignor(group.assignor_name.as_str()) {
        return Err(error);
    }
    if let Some(error) = find_pattern_failure(&group.members) {
        return Err(error);
    }
    let subs = all_subscriptions(&group.members, topics, resolved_regex_topics);
    Ok(assign_subscriptions(group.assignor_name.as_str(), topics, &subs))
}

} // verus!
