//! Operations at the present instant, and under ids that nobody has used.

use crate::classic_barrier;
use crate::classic_join;
use crate::classic_join::{ClassicGroups, JoinRequest};
use crate::classic_members;
use crate::compaction;
use crate::compaction::CompactionPlan;
use crate::consumer_assignor;
use crate::consumer_types::{
    ConsumerGroupHeartbeat, ConsumerGroupHeartbeatResult, GroupAssignmentCompletion, GroupAssignmentTask,
    GroupHeartbeatOutcome,
};
use crate::error;
use crate::error::{ControlError, ControlErrorView};
use crate::fresh;
use crate::fresh::{fresh_id, now, now_ms, write_id};
use crate::group_admin;
use crate::group_offsets;
use crate::groups::{GroupAssignment, GroupMemberIdentity, JoinGroupResult, LeaveGroupMemberResult};
use crate::log_objects;
use crate::log_retention;
use crate::log_types::{
    LogState, LogStateView, ObjectRef, OffsetCommit, ProducerInitialization, ProducerSession, TopicConfig,
    TransactionDescription, TransactionFilter,
};
use crate::offsets;
use crate::partition::{PartitionKey, TopicInfo};
use crate::producers;
use crate::sorted_map;
use crate::sorted_map::SortedMap;
use crate::store;
use crate::store::{Store, StreamsCheck};
use crate::topics;
use crate::transaction_ends;
use crate::transaction_queries;
use crate::transactions;
use vstd::prelude::*;

verus! {

impl Store {
    /// Lets a member join a classic group at the present instant, under a fresh id where it has none.
    pub fn join_group_now(&mut self, request: &JoinRequest) -> (r: Result<JoinGroupResult, ControlError>)
        requires
            classic_join::generations_left(old(self).deep_view().classic, request.deep_view().group_id, 2),
        ensures
            exists|at: int, id: u128|
                fresh::is_reading(at) && fresh::is_drawn(id) && (final(self).deep_view(), error::outcome(r))
                    == #[trigger] store::joined(
                        old(self).deep_view(),
                        request.deep_view(),
                        at,
                        fresh::id_text(id),
                    ),
    {
        let at = now();
        let id: u128 = fresh_id();
        self.join_group(request, at, write_id(id).as_str())
    }

    /// Lets a member join a classic group behind a barrier at the present instant.
    pub fn begin_join_group_now(&mut self, request: &JoinRequest) -> (r: Result<JoinGroupResult, ControlError>)
        requires
            classic_join::generations_left(old(self).deep_view().classic, request.deep_view().group_id, 1),
        ensures
            exists|at: int, id: u128, rebalance: u128|
                fresh::is_reading(at) && fresh::is_drawn(id) && fresh::is_drawn(rebalance) && (final(self).deep_view(), error::outcome(r))
                    == #[trigger] store::begun(
                        old(self).deep_view(),
                        request.deep_view(),
                        at,
                        fresh::id_text(id),
                        rebalance,
                    ),
    {
        let at = now();
        let id: u128 = fresh_id();
        let rebalance: u128 = fresh_id();
        self.begin_join_group(request, at, write_id(id).as_str(), rebalance)
    }

    /// Takes a heartbeat of a consumer at the present instant.
    pub fn consumer_group_heartbeat_now(&mut self, heartbeat: ConsumerGroupHeartbeat) -> (r: Result<ConsumerGroupHeartbeatResult, ControlError>)
        requires
            consumer_assignor::countable(topics::listed_topics(old(self).deep_view().log, None)),
        ensures
            exists|at: int, id: u128| fresh::is_reading(at) && fresh::is_drawn(id) && ({
                let (after, outcome) = #[trigger] store::consumer_heard(old(self).deep_view(), heartbeat.deep_view(), at, false, fresh::id_text(id));
                final(self).deep_view() == after && error::outcome(r) == (match outcome {
                    Ok((result, task)) => Ok(result),
                    Err(refusal) => Err(refusal),
                })
            }),
    {
        let at = now();
        let id: u128 = fresh_id();
        self.consumer_group_heartbeat(heartbeat, at, write_id(id).as_str())
    }

    /// Takes a heartbeat of a consumer at the present instant, and leaves the assignment to be computed later.
    pub fn consumer_group_heartbeat_deferred_now(
        &mut self,
        heartbeat: ConsumerGroupHeartbeat,
    ) -> (r: Result<GroupHeartbeatOutcome<ConsumerGroupHeartbeatResult>, ControlError>)
        requires
            consumer_assignor::countable(topics::listed_topics(old(self).deep_view().log, None)),
        ensures
            exists|at: int, id: u128| fresh::is_reading(at) && fresh::is_drawn(id) && ({
                let (after, outcome) = #[trigger] store::consumer_heard(old(self).deep_view(), heartbeat.deep_view(), at, true, fresh::id_text(id));
                final(self).deep_view() == after && match outcome {
                    Ok((result, task)) => r is Ok && r->Ok_0.result.deep_view() == result && r->Ok_0.assignment_task.deep_view() == task,
                    Err(refusal) => r is Err && r->Err_0.deep_view() == refusal,
                }
            }),
    {
        let at = now();
        let id: u128 = fresh_id();
        self.consumer_group_heartbeat_deferred(heartbeat, at, write_id(id).as_str())
    }

    /// Computes an assignment at the present instant.
    pub fn complete_group_assignment_now(&mut self, task: &GroupAssignmentTask) -> (r: Result<GroupAssignmentCompletion, ControlError>)
        requires
            consumer_assignor::countable(topics::listed_topics(old(self).deep_view().log, None)),
        ensures
            exists|at: int| fresh::is_reading(at) && ({
                let (after, outcome) = #[trigger] store::assignment_completed(old(self).deep_view(), task.deep_view(), at);
                final(self).deep_view() == after && match outcome {
                    Ok(completion) => r == Ok::<GroupAssignmentCompletion, ControlError>(completion),
                    Err(refusal) => r is Err && r->Err_0.deep_view() == refusal,
                }
            }),
    {
        let at = now();
        self.complete_group_assignment(task, at)
    }

    /// Stores offsets of a member at the present instant.
    pub fn commit_member_offsets_now(
        &mut self,
        group_id: &str,
        member_id: &str,
        group_instance_id: Option<&str>,
        generation_or_epoch: i32,
        api_version: i16,
        offsets: Vec<OffsetCommit>,
        streams: Option<StreamsCheck>,
    ) -> (r: Result<Vec<bool>, ControlError>)
        requires
            classic_join::generations_left(old(self).deep_view().classic, group_id@, 1),
        ensures
            exists|at: int|
                fresh::is_reading(at) && (final(self).deep_view(), error::outcome(r))
                    == #[trigger] group_offsets::member_offsets_committed(
                        old(self).deep_view(),
                        group_id@,
                        member_id@,
                        group_instance_id.deep_view(),
                        generation_or_epoch,
                        api_version,
                        offsets.deep_view(),
                        streams.deep_view(),
                        at,
                    ),
    {
        let at = now();
        self.commit_member_offsets(group_id, member_id, group_instance_id, generation_or_epoch, api_version, offsets, streams, at)
    }

    /// Stores offsets of a member in a transaction at the present instant.
    pub fn commit_transaction_member_offsets_now(
        &mut self,
        transactional_id: &str,
        producer: ProducerSession,
        group_id: &str,
        member_id: &str,
        group_instance_id: Option<&str>,
        generation_or_epoch: i32,
        add_group: bool,
        offsets: Vec<OffsetCommit>,
        streams: Option<StreamsCheck>,
    ) -> (r: Result<(), ControlError>)
        requires
            classic_join::generations_left(old(self).deep_view().classic, group_id@, 1),
        ensures
            exists|id: u128, at: int|
                fresh::is_drawn(id) && fresh::is_reading(at) && (final(self).deep_view(), error::outcome(r))
                    == #[trigger] group_offsets::member_offsets_in_transaction(
                        old(self).deep_view(),
                        transactional_id@,
                        producer,
                        group_id@,
                        member_id@,
                        group_instance_id.deep_view(),
                        generation_or_epoch,
                        add_group,
                        offsets.deep_view(),
                        streams.deep_view(),
                        id,
                        at,
                    ),
    {
        let id: u128 = fresh_id();
        let at = now();
        self.commit_transaction_member_offsets(
            transactional_id,
            producer,
            group_id,
            member_id,
            group_instance_id,
            generation_or_epoch,
            add_group,
            offsets,
            streams,
            id,
            at,
        )
    }

    /// Checks a member at the present instant.
    pub fn validate_group_member_now(
        &mut self,
        group_id: &str,
        member_id: &str,
        group_instance_id: Option<&str>,
        generation_or_epoch: i32,
        streams: Option<StreamsCheck>,
    ) -> (r: Result<(), ControlError>)
        requires
            classic_join::generations_left(old(self).deep_view().classic, group_id@, 1),
        ensures
            exists|at: int|
                fresh::is_reading(at) && (final(self).deep_view(), error::outcome(r))
                    == #[trigger] group_admin::member_checked(
                        old(self).deep_view(),
                        group_id@,
                        member_id@,
                        group_instance_id.deep_view(),
                        generation_or_epoch,
                        streams.deep_view(),
                        at,
                    ),
    {
        let at = now();
        self.validate_group_member(group_id, member_id, group_instance_id, generation_or_epoch, streams, at)
    }
}

impl ClassicGroups {
    /// Tells a member how its rebalance stands at the present instant.
    pub fn poll_join_group_now(
        &mut self,
        group_id: &str,
        member_id: &str,
        group_instance_id: Option<&str>,
        rebalance_id: u128,
    ) -> (r: Result<JoinGroupResult, ControlError>)
        requires
            classic_join::generations_left(old(self).deep_view(), group_id@, 1),
        ensures
            exists|at: int|
                fresh::is_reading(at) && (final(self).deep_view(), error::outcome(r))
                    == #[trigger] classic_barrier::polled(
                        old(self).deep_view(),
                        group_id@,
                        member_id@,
                        group_instance_id.deep_view(),
                        rebalance_id,
                        at,
                    ),
    {
        let at = now();
        self.poll_join_group(group_id, member_id, group_instance_id, rebalance_id, at)
    }

    /// Stores the assignments that a leader hands out at the present instant, and gives the member its own.
    pub fn sync_group_now(
        &mut self,
        group_id: &str,
        generation_id: i32,
        member_id: &str,
        group_instance_id: Option<&str>,
        assignments: Vec<GroupAssignment>,
    ) -> (r: Result<Vec<u8>, ControlError>)
        requires
            classic_join::generations_left(old(self).deep_view(), group_id@, 1),
        ensures
            exists|at: int|
                fresh::is_reading(at) && (final(self).deep_view(), error::outcome(r))
                    == #[trigger] classic_members::synced(
                        old(self).deep_view(),
                        group_id@,
                        generation_id,
                        member_id@,
                        group_instance_id.deep_view(),
                        assignments.deep_view(),
                        at,
                    ),
    {
        let at = now();
        self.sync_group(group_id, generation_id, member_id, group_instance_id, assignments, at)
    }

    /// Notes that a member lives at the present instant.
    pub fn heartbeat_group_now(
        &mut self,
        group_id: &str,
        generation_id: i32,
        member_id: &str,
        group_instance_id: Option<&str>,
    ) -> (r: Result<(), ControlError>)
        requires
            classic_join::generations_left(old(self).deep_view(), group_id@, 1),
        ensures
            exists|at: int|
                fresh::is_reading(at) && (final(self).deep_view(), error::outcome(r))
                    == #[trigger] classic_members::refreshed(
                        old(self).deep_view(),
                        group_id@,
                        generation_id,
                        member_id@,
                        group_instance_id.deep_view(),
                        at,
                    ),
    {
        let at = now();
        self.heartbeat_group(group_id, generation_id, member_id, group_instance_id, at)
    }

    /// Lets members leave a group at the present instant.
    pub fn leave_group_now(&mut self, group_id: &str, members: &[GroupMemberIdentity]) -> (r: Result<Vec<LeaveGroupMemberResult>, ControlError>)
        requires
            classic_join::generations_left(old(self).deep_view(), group_id@, 1),
        ensures
            exists|at: int|
                fresh::is_reading(at) && (final(self).deep_view(), error::outcome(r))
                    == #[trigger] classic_members::left(
                        old(self).deep_view(),
                        group_id@,
                        sorted_map::models(members@),
                        at,
                    ),
    {
        let at = now();
        self.leave_group(group_id, members, at)
    }
}

impl LogState {
    /// Creates a topic under a fresh id.
    pub fn create_topic_now(
        &mut self,
        name: &str,
        partitions: i32,
        config: TopicConfig,
        refusal: Option<ControlError>,
        collision: Option<ControlError>,
    ) -> (r: Result<TopicInfo, ControlError>)
        ensures
            exists|id: u128|
                fresh::is_drawn(id) && (final(self).deep_view(), error::outcome(r))
                    == #[trigger] topics::created(
                        old(self).deep_view(),
                        name@,
                        partitions,
                        config.deep_view(),
                        refusal.deep_view(),
                        collision.deep_view(),
                        id,
                    ),
    {
        let id: u128 = fresh_id();
        self.create_topic_with_config(name, partitions, config, refusal, collision, id)
    }

    /// Deletes a topic at the present instant.
    pub fn delete_topic_now(&mut self, name: &str) -> (r: Result<(), ControlError>)
        ensures
            r is Ok <==> old(self).deep_view().topics.contains_key(name@),
            r is Err ==> final(self).deep_view() == old(self).deep_view() && r->Err_0.deep_view() == ControlErrorView::TopicNotFound(name@),
            r is Ok ==> exists|at_ms: i64|
                fresh::is_reading_ms(at_ms) && final(self).deep_view()
                    == #[trigger] topics::topic_deleted(old(self).deep_view(), old(self).deep_view().topics[name@], at_ms),
    {
        let at_ms: i64 = now_ms();
        self.delete_topic(name, at_ms)
    }

    /// Deletes the topic of an id at the present instant.
    pub fn delete_topic_by_id_now(&mut self, id: u128) -> (r: Option<TopicInfo>)
        ensures
            r.deep_view() == topics::topic_under(old(self).deep_view(), id),
            r is None ==> final(self).deep_view() == old(self).deep_view(),
            r is Some ==> exists|at_ms: i64|
                fresh::is_reading_ms(at_ms) && final(self).deep_view()
                    == #[trigger] topics::topic_deleted(old(self).deep_view(), r->0.deep_view(), at_ms),
    {
        let at_ms: i64 = now_ms();
        self.delete_topic_by_id(id, at_ms)
    }

    /// Stores offsets of a group at the present instant.
    pub fn commit_offsets_now(&mut self, group_id: &str, offsets: Vec<OffsetCommit>) -> (r: Result<(), ControlError>)
        ensures
            exists|at_ms: i64|
                fresh::is_reading_ms(at_ms) && (final(self).deep_view(), error::outcome(r))
                    == #[trigger] offsets::offsets_committed(
                        old(self).deep_view(),
                        group_id@,
                        offsets.deep_view(),
                        at_ms,
                    ),
    {
        let at_ms: i64 = now_ms();
        self.commit_offsets(group_id, offsets, at_ms)
    }

    /// Stores offsets of a group in a transaction at the present instant.
    pub fn commit_transaction_offsets_now(
        &mut self,
        transactional_id: &str,
        producer: ProducerSession,
        group_id: &str,
        add_group: bool,
        offsets: Vec<OffsetCommit>,
    ) -> (r: Result<(), ControlError>)
        ensures
            exists|id: u128, at: int|
                fresh::is_drawn(id) && fresh::is_reading(at) && (final(self).deep_view(), error::outcome(r))
                    == #[trigger] offsets::offsets_in_transaction(
                        old(self).deep_view(),
                        transactional_id@,
                        producer,
                        group_id@,
                        add_group,
                        offsets.deep_view(),
                        id,
                        at,
                    ),
    {
        let id: u128 = fresh_id();
        let at = now();
        self.commit_transaction_offsets(transactional_id, producer, group_id, add_group, offsets, id, at)
    }

    /// Announces an object at the present instant.
    pub fn stage_object_now(&mut self, object: ObjectRef) -> (r: Result<(), ControlError>)
        ensures
            exists|at_ms: i64|
                fresh::is_reading_ms(at_ms) && (final(self).deep_view(), error::outcome(r))
                    == #[trigger] log_objects::staged(old(self).deep_view(), object.key@, at_ms),
    {
        let at_ms: i64 = now_ms();
        self.stage_object(object, at_ms)
    }

    /// Claims announced objects that never came, at the present instant.
    pub fn claim_stale_objects_now(&mut self, before_ms: i64, limit: i64) -> (r: Vec<String>)
        ensures
            exists|at_ms: i64|
                fresh::is_reading_ms(at_ms) && r.deep_view() == log_objects::claimable(old(self).deep_view(), before_ms, limit)
                && final(self).deep_view() == (LogStateView {
                    orphan_gc_claims: #[trigger] log_objects::claimed(old(self).deep_view().orphan_gc_claims, r.deep_view(), at_ms),
                    ..old(self).deep_view()
                }),
    {
        let at_ms: i64 = now_ms();
        self.claim_stale_objects(before_ms, limit, at_ms)
    }

    /// Deletes records on request at the present instant.
    pub fn delete_records_now(&mut self, partition: &PartitionKey, before_offset: i64) -> (r: Result<i64, ControlError>)
        ensures
            exists|at_ms: i64|
                fresh::is_reading_ms(at_ms) && (final(self).deep_view(), error::outcome(r))
                    == #[trigger] log_retention::records_deleted(
                        old(self).deep_view(),
                        partition.deep_view(),
                        before_offset,
                        at_ms,
                    ),
    {
        let at_ms: i64 = now_ms();
        self.delete_records(partition, before_offset, at_ms)
    }

    /// Claims a partition for compaction under a fresh lease.
    pub fn claim_compaction_now(
        &mut self,
        now_ms: i64,
        lease_ms: i64,
        reached: &SortedMap<PartitionKey, ()>,
    ) -> (r: Result<Option<CompactionPlan>, ControlError>)
        ensures
            exists|id: u128|
                fresh::is_drawn(id) && (final(self).deep_view(), error::outcome(r))
                    == #[trigger] compaction::claimed(
                        old(self).deep_view(),
                        now_ms,
                        lease_ms,
                        reached.deep_view().dom(),
                        id,
                    ),
    {
        let id: u128 = fresh_id();
        self.claim_compaction(now_ms, lease_ms, reached, id)
    }

    /// Gives a producer a session at the present instant.
    pub fn init_producer_with_options_now(
        &mut self,
        transactional_id: Option<&str>,
        transaction_timeout_ms: i32,
        current: Option<ProducerSession>,
        enable_2_pc: bool,
        keep_prepared_txn: bool,
    ) -> (r: Result<ProducerInitialization, ControlError>)
        requires
            producers::indexed(old(self).deep_view()),
            old(self).next_producer_id < i64::MAX,
        ensures
            exists|at_ms: i64|
                fresh::is_reading_ms(at_ms) && (final(self).deep_view(), error::outcome(r))
                    == #[trigger] producers::initialized(
                        old(self).deep_view(),
                        transactional_id.deep_view(),
                        transaction_timeout_ms,
                        current,
                        enable_2_pc,
                        keep_prepared_txn,
                        at_ms,
                    ),
    {
        let at_ms: i64 = now_ms();
        self.init_producer_with_options(transactional_id, transaction_timeout_ms, current, enable_2_pc, keep_prepared_txn, at_ms)
    }

    /// Adds partitions to the transaction of a producer at the present instant.
    pub fn add_partitions_now(
        &mut self,
        transactional_id: &str,
        producer: ProducerSession,
        partitions: &[PartitionKey],
        verify_only: bool,
    ) -> (r: Result<(), ControlError>)
        ensures
            exists|id: u128, at: int|
                fresh::is_drawn(id) && fresh::is_reading(at) && (final(self).deep_view(), error::outcome(r))
                    == #[trigger] transactions::partitions_added(
                        old(self).deep_view(),
                        transactional_id@,
                        producer,
                        sorted_map::models(partitions@),
                        verify_only,
                        id,
                        at,
                    ),
    {
        let id: u128 = fresh_id();
        let at = now();
        self.add_partitions_to_transaction(transactional_id, producer, partitions, verify_only, id, at)
    }

    /// Adds a group to the transaction of a producer at the present instant.
    pub fn add_offsets_to_transaction_now(
        &mut self,
        transactional_id: &str,
        producer: ProducerSession,
        group_id: &str,
    ) -> (r: Result<(), ControlError>)
        ensures
            exists|id: u128, at: int|
                fresh::is_drawn(id) && fresh::is_reading(at) && (final(self).deep_view(), error::outcome(r))
                    == #[trigger] transactions::group_added(
                        old(self).deep_view(),
                        transactional_id@,
                        producer,
                        group_id@,
                        id,
                        at,
                    ),
    {
        let id: u128 = fresh_id();
        let at = now();
        self.add_offsets_to_transaction(transactional_id, producer, group_id, id, at)
    }

    /// Ends the transaction of a producer at the present instant.
    pub fn end_transaction_now(
        &mut self,
        transactional_id: &str,
        producer: ProducerSession,
        committed: bool,
    ) -> (r: Result<(), ControlError>)
        ensures
            exists|at: int| fresh::is_reading(at) && ({
                let (after, outcome) = #[trigger] transaction_ends::finished(
                    old(self).deep_view(),
                    transactional_id@,
                    producer,
                    committed,
                    false,
                    0,
                    at,
                );
                final(self).deep_view() == after && error::outcome(r) == (match outcome {
                    Ok(_) => Ok(()),
                    Err(refusal) => Err(refusal),
                })
            }),
    {
        let at = now();
        self.end_transaction(transactional_id, producer, committed, at)
    }

    /// Ends the transaction of a producer at the present instant, and gives the producer its next epoch.
    pub fn end_transaction_with_epoch_bump_now(
        &mut self,
        transactional_id: &str,
        producer: ProducerSession,
        committed: bool,
    ) -> (r: Result<ProducerSession, ControlError>)
        requires
            old(self).next_producer_id < i64::MAX,
        ensures
            exists|id: u128, at: int|
                fresh::is_drawn(id) && fresh::is_reading(at) && (final(self).deep_view(), error::outcome(r))
                    == #[trigger] transaction_ends::finished(
                        old(self).deep_view(),
                        transactional_id@,
                        producer,
                        committed,
                        true,
                        id,
                        at,
                    ),
    {
        let id: u128 = fresh_id();
        let at = now();
        self.end_transaction_with_epoch_bump(transactional_id, producer, committed, id, at)
    }

    /// Ends a transaction by a coordinator's marker at the present instant.
    pub fn write_transaction_marker_now(
        &mut self,
        producer: ProducerSession,
        partitions: &[PartitionKey],
        committed: bool,
        coordinator_epoch: i32,
        transaction_version: i8,
    ) -> (r: Result<(), ControlError>)
        ensures
            exists|at_ms: i64|
                fresh::is_reading_ms(at_ms) && (final(self).deep_view(), error::outcome(r))
                    == #[trigger] transaction_ends::marker_written(
                        old(self).deep_view(),
                        producer,
                        sorted_map::models(partitions@),
                        committed,
                        coordinator_epoch,
                        transaction_version,
                        at_ms,
                    ),
    {
        let at_ms: i64 = now_ms();
        self.write_transaction_marker(producer, partitions, committed, coordinator_epoch, transaction_version, at_ms)
    }

    /// Lists transactional ids at the present instant.
    pub fn list_transactions_now(&self, filter: &TransactionFilter) -> (r: Result<Vec<TransactionDescription>, ControlError>)
        ensures
            exists|at_ms: i64|
                fresh::is_reading_ms(at_ms) && error::outcome(r)
                    == #[trigger] transaction_queries::filtered_descriptions(
                        transaction_queries::all_described(self.deep_view(), transaction_queries::known_ids(self.deep_view())),
                        filter.deep_view(),
                        at_ms,
                    ),
    {
        let at_ms: i64 = now_ms();
        self.list_transactions(filter, at_ms)
    }

    /// Aborts open transactions that have run out of time by now, and counts them.
    pub fn abort_expired_transactions_now(&mut self) -> (r: u64)
        ensures
            exists|at: int|
                fresh::is_reading(at) && final(self).deep_view()
                    == #[trigger] transaction_queries::timed_out(old(self).deep_view(), at)
                && r == transaction_queries::overdue(old(self).deep_view(), at).dom().len(),
    {
        let at = now();
        self.abort_expired_transactions(at)
    }
}

} // verus!
