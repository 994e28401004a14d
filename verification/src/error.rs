//! What can go wrong.

use crate::partition::{PartitionKey, PartitionKeyView};
use vstd::prelude::*;

verus! {

/// The reasons for which the store refuses a request.
#[derive(Debug, Clone, PartialEq, Eq)]
#[allow(inconsistent_fields)]
pub enum ControlError {
    /// The topic does not exist.
    TopicNotFound(String),
    /// A topic of that name exists.
    TopicAlreadyExists(String),
    /// The topic's name is not acceptable.
    InvalidTopic(String),
    /// A topic can only grow.
    InvalidPartitionCount { topic: String, current: i32, requested: i32 },
    /// The offset lies outside the retained range.
    OffsetOutOfRange { partition: PartitionKey, offset: i64, start: i64, end: i64 },
    /// The partition does not exist.
    PartitionNotFound { topic: String, partition: i32 },
    /// The request breaks a rule that the text names.
    InvalidRequest(String),
    /// The pattern is no regular expression.
    InvalidRegularExpression(String),
    /// The configuration breaks a rule that the text names.
    InvalidConfiguration(String),
    /// The feature update breaks a rule that the text names.
    InvalidUpdateVersion(String),
    /// The subscription does not exist.
    ClientMetricSubscriptionNotFound(String),
    /// The group does not exist.
    GroupNotFound(String),
    /// The group uses another protocol.
    GroupProtocolMismatch(String),
    /// The group has members.
    NonEmptyGroup(String),
    /// The group is full.
    GroupMaxSizeReached(String),
    /// The group has no such member.
    GroupMemberNotFound { group: String, member: String },
    /// The member has to join again under the id given here.
    MemberIdRequired { member_id: String },
    /// No protocol is offered by every member.
    InconsistentGroupProtocol(String),
    /// The group is gathering a new generation.
    RebalanceInProgress(String),
    /// The instance id belongs to another member.
    FencedInstanceId { group: String, instance_id: String },
    /// The member's epoch is stale.
    FencedMemberEpoch { group: String, member: String, expected: i32, actual: i32 },
    /// The member has no share session.
    ShareSessionNotFound { group: String, member: String },
    /// The share session's epoch is stale.
    InvalidShareSessionEpoch { group: String, member: String, expected: i32, actual: i32 },
    /// The record cannot be acknowledged.
    InvalidShareRecordState(i64),
    /// The leader epoch is stale.
    FencedShareLeaderEpoch { current: i32, requested: i32 },
    /// The state epoch is stale.
    FencedShareStateEpoch { current: i32, requested: i32 },
    /// The assignor is not configured.
    UnsupportedConsumerAssignor(String),
    /// The request's version is too old.
    UnsupportedVersion(String),
    /// The instance id is still held by a member.
    UnreleasedInstanceId { group: String, instance_id: String, member: String },
    /// The member's generation is stale.
    IllegalGeneration { group: String, expected: i32, actual: i32 },
    /// The producer id was never handed out.
    UnknownProducer(i64),
    /// The producer's epoch is stale.
    ProducerFenced { producer_id: i64, expected_epoch: i16, actual_epoch: i16 },
    /// The coordinator's epoch is stale.
    TransactionCoordinatorFenced { producer_id: i64, current_epoch: i32, requested_epoch: i32 },
    /// The batch does not follow the last one.
    OutOfOrderSequence { producer_id: i64, partition: PartitionKey, expected: i32, actual: i32 },
    /// The transactional id is unknown.
    TransactionNotFound(String),
    /// The transaction's state does not allow the request.
    InvalidTransactionState(String),
    /// The transaction timeout is not acceptable.
    InvalidTransactionTimeout(i32),
    /// The token does not exist.
    DelegationTokenNotFound,
    /// The requester neither owns nor renews the token.
    DelegationTokenOwnerMismatch,
    /// The token has expired.
    DelegationTokenExpired,
}

/// The model of an error.
#[allow(inconsistent_fields)]
pub enum ControlErrorView {
    TopicNotFound(Seq<char>),
    TopicAlreadyExists(Seq<char>),
    InvalidTopic(Seq<char>),
    InvalidPartitionCount { topic: Seq<char>, current: i32, requested: i32 },
    OffsetOutOfRange { partition: PartitionKeyView, offset: i64, start: i64, end: i64 },
    PartitionNotFound { topic: Seq<char>, partition: i32 },
    InvalidRequest(Seq<char>),
    InvalidRegularExpression(Seq<char>),
    InvalidConfiguration(Seq<char>),
    InvalidUpdateVersion(Seq<char>),
    ClientMetricSubscriptionNotFound(Seq<char>),
    GroupNotFound(Seq<char>),
    GroupProtocolMismatch(Seq<char>),
    NonEmptyGroup(Seq<char>),
    GroupMaxSizeReached(Seq<char>),
    GroupMemberNotFound { group: Seq<char>, member: Seq<char> },
    MemberIdRequired { member_id: Seq<char> },
    InconsistentGroupProtocol(Seq<char>),
    RebalanceInProgress(Seq<char>),
    FencedInstanceId { group: Seq<char>, instance_id: Seq<char> },
    FencedMemberEpoch { group: Seq<char>, member: Seq<char>, expected: i32, actual: i32 },
    ShareSessionNotFound { group: Seq<char>, member: Seq<char> },
    InvalidShareSessionEpoch { group: Seq<char>, member: Seq<char>, expected: i32, actual: i32 },
    InvalidShareRecordState(i64),
    FencedShareLeaderEpoch { current: i32, requested: i32 },
    FencedShareStateEpoch { current: i32, requested: i32 },
    UnsupportedConsumerAssignor(Seq<char>),
    UnsupportedVersion(Seq<char>),
    UnreleasedInstanceId { group: Seq<char>, instance_id: Seq<char>, member: Seq<char> },
    IllegalGeneration { group: Seq<char>, expected: i32, actual: i32 },
    UnknownProducer(i64),
    ProducerFenced { producer_id: i64, expected_epoch: i16, actual_epoch: i16 },
    TransactionCoordinatorFenced { producer_id: i64, current_epoch: i32, requested_epoch: i32 },
    OutOfOrderSequence { producer_id: i64, partition: PartitionKeyView, expected: i32, actual: i32 },
    TransactionNotFound(Seq<char>),
    InvalidTransactionState(Seq<char>),
    InvalidTransactionTimeout(i32),
    DelegationTokenNotFound,
    DelegationTokenOwnerMismatch,
    DelegationTokenExpired,
}

impl DeepView for ControlError {
    type V = ControlErrorView;

    open spec fn deep_view(&self) -> ControlErrorView {
        match self {
            ControlError::TopicNotFound(value) => ControlErrorView::TopicNotFound(value@),
            ControlError::TopicAlreadyExists(value) => ControlErrorView::TopicAlreadyExists(value@),
            ControlError::InvalidTopic(value) => ControlErrorView::InvalidTopic(value@),
            ControlError::InvalidPartitionCount { topic, current, requested } => ControlErrorView::InvalidPartitionCount { topic: topic@, current: *current, requested: *requested },
            ControlError::OffsetOutOfRange { partition, offset, start, end } => ControlErrorView::OffsetOutOfRange { partition: partition.deep_view(), offset: *offset, start: *start, end: *end },
            ControlError::PartitionNotFound { topic, partition } => ControlErrorView::PartitionNotFound { topic: topic@, partition: *partition },
            ControlError::InvalidRequest(value) => ControlErrorView::InvalidRequest(value@),
            ControlError::InvalidRegularExpression(value) => ControlErrorView::InvalidRegularExpression(value@),
            ControlError::InvalidConfiguration(value) => ControlErrorView::InvalidConfiguration(value@),
            ControlError::InvalidUpdateVersion(value) => ControlErrorView::InvalidUpdateVersion(value@),
            ControlError::ClientMetricSubscriptionNotFound(value) => ControlErrorView::ClientMetricSubscriptionNotFound(value@),
            ControlError::GroupNotFound(value) => ControlErrorView::GroupNotFound(value@),
            ControlError::GroupProtocolMismatch(value) => ControlErrorView::GroupProtocolMismatch(value@),
            ControlError::NonEmptyGroup(value) => ControlErrorView::NonEmptyGroup(value@),
            ControlError::GroupMaxSizeReached(value) => ControlErrorView::GroupMaxSizeReached(value@),
            ControlError::GroupMemberNotFound { group, member } => ControlErrorView::GroupMemberNotFound { group: group@, member: member@ },
            ControlError::MemberIdRequired { member_id } => ControlErrorView::MemberIdRequired { member_id: member_id@ },
            ControlError::InconsistentGroupProtocol(value) => ControlErrorView::InconsistentGroupProtocol(value@),
            ControlError::RebalanceInProgress(value) => ControlErrorView::RebalanceInProgress(value@),
            ControlError::FencedInstanceId { group, instance_id } => ControlErrorView::FencedInstanceId { group: group@, instance_id: instance_id@ },
            ControlError::FencedMemberEpoch { group, member, expected, actual } => ControlErrorView::FencedMemberEpoch { group: group@, member: member@, expected: *expected, actual: *actual },
            ControlError::ShareSessionNotFound { group, member } => ControlErrorView::ShareSessionNotFound { group: group@, member: member@ },
            ControlError::InvalidShareSessionEpoch { group, member, expected, actual } => ControlErrorView::InvalidShareSessionEpoch { group: group@, member: member@, expected: *expected, actual: *actual },
            ControlError::InvalidShareRecordState(value) => ControlErrorView::InvalidShareRecordState(*value),
            ControlError::FencedShareLeaderEpoch { current, requested } => ControlErrorView::FencedShareLeaderEpoch { current: *current, requested: *requested },
            ControlError::FencedShareStateEpoch { current, requested } => ControlErrorView::FencedShareStateEpoch { current: *current, requested: *requested },
            ControlError::UnsupportedConsumerAssignor(value) => ControlErrorView::UnsupportedConsumerAssignor(value@),
            ControlError::UnsupportedVersion(value) => ControlErrorView::UnsupportedVersion(value@),
            ControlError::UnreleasedInstanceId { group, instance_id, member } => ControlErrorView::UnreleasedInstanceId { group: group@, instance_id: instance_id@, member: member@ },
            ControlError::IllegalGeneration { group, expected, actual } => ControlErrorView::IllegalGeneration { group: group@, expected: *expected, actual: *actual },
            ControlError::UnknownProducer(value) => ControlErrorView::UnknownProducer(*value),
            ControlError::ProducerFenced { producer_id, expected_epoch, actual_epoch } => ControlErrorView::ProducerFenced { producer_id: *producer_id, expected_epoch: *expected_epoch, actual_epoch: *actual_epoch },
            ControlError::TransactionCoordinatorFenced { producer_id, current_epoch, requested_epoch } => ControlErrorView::TransactionCoordinatorFenced { producer_id: *producer_id, current_epoch: *current_epoch, requested_epoch: *requested_epoch },
            ControlError::OutOfOrderSequence { producer_id, partition, expected, actual } => ControlErrorView::OutOfOrderSequence { producer_id: *producer_id, partition: partition.deep_view(), expected: *expected, actual: *actual },
            ControlError::TransactionNotFound(value) => ControlErrorView::TransactionNotFound(value@),
            ControlError::InvalidTransactionState(value) => ControlErrorView::InvalidTransactionState(value@),
            ControlError::InvalidTransactionTimeout(value) => ControlErrorView::InvalidTransactionTimeout(*value),
            ControlError::DelegationTokenNotFound => ControlErrorView::DelegationTokenNotFound,
            ControlError::DelegationTokenOwnerMismatch => ControlErrorView::DelegationTokenOwnerMismatch,
            ControlError::DelegationTokenExpired => ControlErrorView::DelegationTokenExpired,
        }
    }
}

/// The model of a result: the error's model where there is one.
pub open spec fn outcome<T: DeepView>(r: Result<T, ControlError>) -> Result<T::V, ControlErrorView> {
    match r {
        Ok(value) => Ok(value.deep_view()),
        Err(error) => Err(error.deep_view()),
    }
}

} // verus!
