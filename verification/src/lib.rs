//! Metadata rules of a log-structured message broker.

pub mod access_laws;
pub mod acl_store;
pub mod acls;
pub mod assignment_interval;
pub mod classic_barrier;
pub mod classic_barrier_laws;
pub mod classic_groups;
pub mod classic_join;
pub mod classic_join_laws;
pub mod classic_laws;
pub mod classic_member_laws;
pub mod classic_members;
pub mod client_metrics;
pub mod client_quotas;
pub mod clocked;
pub mod compaction;
pub mod compaction_commit;
pub mod compaction_laws;
pub mod configs;
pub mod consumer_assignor;
pub mod consumer_groups;
pub mod consumer_heartbeat;
pub mod consumer_laws;
pub mod consumer_member_laws;
pub mod consumer_queries;
pub mod consumer_reconcile;
pub mod consumer_share_laws;
pub mod consumer_target_laws;
pub mod consumer_types;
pub mod delegation_tokens;
pub mod error;
pub mod expiry_laws;
pub mod features;
pub mod fresh;
pub mod group_admin;
pub mod group_laws;
pub mod group_offsets;
pub mod groups;
pub mod log_append;
pub mod log_laws;
pub mod log_objects;
pub mod log_reads;
pub mod log_retention;
pub mod log_types;
pub mod marker_laws;
pub mod member_epoch;
pub mod numbers;
pub mod object_laws;
pub mod observability;
pub mod offset_expiry;
pub mod offsets;
pub mod partition;
pub mod patterns;
pub mod producer_expiry;
pub mod producers;
pub mod read_laws;
pub mod repeat_laws;
pub mod retention_laws;
pub mod row_commit;
pub mod row_groups;
pub mod row_laws;
pub mod row_rules;
pub mod scram;
pub mod session_laws;
pub mod settings_laws;
pub mod share_groups;
pub mod sorted_map;
pub mod store;
pub mod store_laws;
pub mod telling_laws;
pub mod text;
pub mod text_parts;
pub mod time;
pub mod topic_laws;
pub mod topics;
pub mod transaction_ends;
pub mod transaction_laws;
pub mod transaction_queries;
pub mod transactions;
pub mod trim_laws;
pub mod write_laws;

pub use acl_store::AclStore;
pub use acls::{AclFilter, AclOperation, AclPatternFilter, AclPatternType, AclPermission, AclResourceType, AclRule};
pub use classic_join::{ClassicGroups, JoinRequest};
pub use client_metrics::{ClientMetricConfigAlteration, ClientMetricSubscription, ClientMetrics};
pub use client_quotas::{ClientQuota, ClientQuotaAlteration, ClientQuotaEntity, ClientQuotas};
pub use compaction::{CompactedObject, CompactedSpanDraft, CompactionPlan, CompactionSourceSpan, CompactionTransactionState};
pub use configs::Configs;
pub use consumer_types::{
    AssignmentProtocol, ConsumerGroupDescription, ConsumerGroupHeartbeat, ConsumerGroupHeartbeatResult, ConsumerGroupMemberDescription,
    ConsumerOwnedTopicPartitions, ConsumerTopicAssignment, GroupAssignmentCompletion, GroupAssignmentTask, GroupHeartbeatOutcome,
};
pub use delegation_tokens::{DelegationToken, DelegationTokens};
pub use error::ControlError;
pub use features::{FeatureLevelUpdate, FeatureMetadata, FeatureUpgradeType, SupportedFeature};
pub use groups::{
    ClassicGroupDescription, ClassicGroupMemberDescription, GroupAssignment, GroupMember, GroupMemberIdentity, GroupProtocol, GroupSummary,
    JoinGroupResult, LeaveGroupMemberError, LeaveGroupMemberResult,
};
pub use log_append::increment_producer_sequence;
pub use log_types::{
    ActiveProducer, BatchDraft, CommittedOffset, FetchIsolation, LogState, ObjectRef, OffsetCommit, PartitionFetch, PartitionWatermarks,
    ProducerBatch, ProducerInitialization, ProducerSession, RetentionResult, SpanIntegrity, StoredSpan, TopicConfig, TransactionDescription,
    TransactionFilter, TransactionState, TransactionStatus,
};
pub use observability::{ConsumerLag, PartitionRetentionSize, TransactionStateCounts};
pub use partition::{PartitionKey, TopicInfo};
pub use scram::{ScramCredential, ScramCredentialAlteration, ScramCredentials};
pub use share_groups::{ShareOffsetUpdateResult, SharePartitionOffset};
pub use store::Store;
pub use time::Timestamp;
