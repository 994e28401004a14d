//! Access rules, and what they allow.

use crate::error;
use crate::error::{ControlError, ControlErrorView};
use crate::sorted_map;
use crate::sorted_map::{Duplicate, SortedMap};
use crate::text;
use crate::text::{join_texts, same_text, starts_with, text_with_number};
use vstd::prelude::*;

verus! {

/// The type of a resource.
#[derive(Debug, Clone, Copy, PartialEq, Eq, Hash, Structural)]
pub enum AclResourceType {
    Topic,
    Group,
    Cluster,
    TransactionalId,
    DelegationToken,
    User,
}

impl DeepView for AclResourceType {
    type V = AclResourceType;

    open spec fn deep_view(&self) -> AclResourceType {
        *self
    }
}

impl Duplicate for AclResourceType {
    fn duplicate(&self) -> (r: Self) {
        *self
    }
}

impl AclResourceType {
    /// The number that stands for a value.
    pub open spec fn number(self) -> i8 {
        match self {
            AclResourceType::Topic => 2i8,
            AclResourceType::Group => 3i8,
            AclResourceType::Cluster => 4i8,
            AclResourceType::TransactionalId => 5i8,
            AclResourceType::DelegationToken => 6i8,
            AclResourceType::User => 7i8,
        }
    }

    pub fn code(self) -> (r: i8)
        ensures
            r == self.number(),
    {
        match self {
            AclResourceType::Topic => 2,
            AclResourceType::Group => 3,
            AclResourceType::Cluster => 4,
            AclResourceType::TransactionalId => 5,
            AclResourceType::DelegationToken => 6,
            AclResourceType::User => 7,
        }
    }

    /// The value that a number stands for.
    pub open spec fn numbered(number: i8) -> Option<AclResourceType> {
        if number == 2 {
            Some(AclResourceType::Topic)
        } else if number == 3 {
            Some(AclResourceType::Group)
        } else if number == 4 {
            Some(AclResourceType::Cluster)
        } else if number == 5 {
            Some(AclResourceType::TransactionalId)
        } else if number == 6 {
            Some(AclResourceType::DelegationToken)
        } else if number == 7 {
            Some(AclResourceType::User)
        } else {
            None
        }
    }

    /// Finds the value that a number stands for.
    pub fn try_from(value: i8) -> (r: Result<AclResourceType, ControlError>)
        ensures
            error::outcome(r) == (match AclResourceType::numbered(value) {
                Some(found) => Ok(found),
                None => Err(ControlErrorView::InvalidRequest("invalid ACL resource type "@ + text::decimal_text(value as int))),
            }),
    {
        match value {
            2 => Ok(AclResourceType::Topic),
            3 => Ok(AclResourceType::Group),
            4 => Ok(AclResourceType::Cluster),
            5 => Ok(AclResourceType::TransactionalId),
            6 => Ok(AclResourceType::DelegationToken),
            7 => Ok(AclResourceType::User),
            _ => Err(ControlError::InvalidRequest(text_with_number("invalid ACL resource type ", value as i64))),
        }
    }

    /// The name of a value.
    pub open spec fn title(self) -> Seq<char> {
        match self {
            AclResourceType::Topic => "TOPIC"@,
            AclResourceType::Group => "GROUP"@,
            AclResourceType::Cluster => "CLUSTER"@,
            AclResourceType::TransactionalId => "TRANSACTIONAL_ID"@,
            AclResourceType::DelegationToken => "DELEGATION_TOKEN"@,
            AclResourceType::User => "USER"@,
        }
    }

    pub fn name(self) -> (r: &'static str)
        ensures
            r@ == self.title(),
    {
        match self {
            AclResourceType::Topic => "TOPIC",
            AclResourceType::Group => "GROUP",
            AclResourceType::Cluster => "CLUSTER",
            AclResourceType::TransactionalId => "TRANSACTIONAL_ID",
            AclResourceType::DelegationToken => "DELEGATION_TOKEN",
            AclResourceType::User => "USER",
        }
    }

    /// The value of a name.
    pub open spec fn titled(name: Seq<char>) -> Option<AclResourceType> {
        if name == "TOPIC"@ {
            Some(AclResourceType::Topic)
        } else if name == "GROUP"@ {
            Some(AclResourceType::Group)
        } else if name == "CLUSTER"@ {
            Some(AclResourceType::Cluster)
        } else if name == "TRANSACTIONAL_ID"@ {
            Some(AclResourceType::TransactionalId)
        } else if name == "DELEGATION_TOKEN"@ {
            Some(AclResourceType::DelegationToken)
        } else if name == "USER"@ {
            Some(AclResourceType::User)
        } else {
            None
        }
    }

    /// Finds the value of a stored name.
    pub fn from_name(value: &str) -> (r: Result<AclResourceType, ControlError>)
        ensures
            error::outcome(r) == (match AclResourceType::titled(value@) {
                Some(found) => Ok(found),
                None => Err(ControlErrorView::InvalidRequest("invalid stored ACL resource type "@ + value@)),
            }),
    {
        if same_text(value, "TOPIC") {
            Ok(AclResourceType::Topic)
        } else if same_text(value, "GROUP") {
            Ok(AclResourceType::Group)
        } else if same_text(value, "CLUSTER") {
            Ok(AclResourceType::Cluster)
        } else if same_text(value, "TRANSACTIONAL_ID") {
            Ok(AclResourceType::TransactionalId)
        } else if same_text(value, "DELEGATION_TOKEN") {
            Ok(AclResourceType::DelegationToken)
        } else if same_text(value, "USER") {
            Ok(AclResourceType::User)
        } else {
            Err(ControlError::InvalidRequest(join_texts("invalid stored ACL resource type ", value)))
        }
    }
}

/// How a rule names resources.
#[derive(Debug, Clone, Copy, PartialEq, Eq, Hash, Structural)]
pub enum AclPatternType {
    Literal,
    Prefixed,
}

impl DeepView for AclPatternType {
    type V = AclPatternType;

    open spec fn deep_view(&self) -> AclPatternType {
        *self
    }
}

impl Duplicate for AclPatternType {
    fn duplicate(&self) -> (r: Self) {
        *self
    }
}

impl AclPatternType {
    /// The number that stands for a value.
    pub open spec fn number(self) -> i8 {
        match self {
            AclPatternType::Literal => 3i8,
            AclPatternType::Prefixed => 4i8,
        }
    }

    pub fn code(self) -> (r: i8)
        ensures
            r == self.number(),
    {
        match self {
            AclPatternType::Literal => 3,
            AclPatternType::Prefixed => 4,
        }
    }

    /// The value that a number stands for.
    pub open spec fn numbered(number: i8) -> Option<AclPatternType> {
        if number == 3 {
            Some(AclPatternType::Literal)
        } else if number == 4 {
            Some(AclPatternType::Prefixed)
        } else {
            None
        }
    }

    /// Finds the value that a number stands for.
    pub fn try_from(value: i8) -> (r: Result<AclPatternType, ControlError>)
        ensures
            error::outcome(r) == (match AclPatternType::numbered(value) {
                Some(found) => Ok(found),
                None => Err(ControlErrorView::InvalidRequest("invalid ACL pattern type "@ + text::decimal_text(value as int))),
            }),
    {
        match value {
            3 => Ok(AclPatternType::Literal),
            4 => Ok(AclPatternType::Prefixed),
            _ => Err(ControlError::InvalidRequest(text_with_number("invalid ACL pattern type ", value as i64))),
        }
    }

    /// The name of a value.
    pub open spec fn title(self) -> Seq<char> {
        match self {
            AclPatternType::Literal => "LITERAL"@,
            AclPatternType::Prefixed => "PREFIXED"@,
        }
    }

    pub fn name(self) -> (r: &'static str)
        ensures
            r@ == self.title(),
    {
        match self {
            AclPatternType::Literal => "LITERAL",
            AclPatternType::Prefixed => "PREFIXED",
        }
    }

    /// The value of a name.
    pub open spec fn titled(name: Seq<char>) -> Option<AclPatternType> {
        if name == "LITERAL"@ {
            Some(AclPatternType::Literal)
        } else if name == "PREFIXED"@ {
            Some(AclPatternType::Prefixed)
        } else {
            None
        }
    }

    /// Finds the value of a stored name.
    pub fn from_name(value: &str) -> (r: Result<AclPatternType, ControlError>)
        ensures
            error::outcome(r) == (match AclPatternType::titled(value@) {
                Some(found) => Ok(found),
                None => Err(ControlErrorView::InvalidRequest("invalid stored ACL pattern type "@ + value@)),
            }),
    {
        if same_text(value, "LITERAL") {
            Ok(AclPatternType::Literal)
        } else if same_text(value, "PREFIXED") {
            Ok(AclPatternType::Prefixed)
        } else {
            Err(ControlError::InvalidRequest(join_texts("invalid stored ACL pattern type ", value)))
        }
    }
}

/// How a filter names resources.
#[derive(Debug, Clone, Copy, PartialEq, Eq, Hash, Structural)]
pub enum AclPatternFilter {
    Any,
    Match,
    Literal,
    Prefixed,
}

impl DeepView for AclPatternFilter {
    type V = AclPatternFilter;

    open spec fn deep_view(&self) -> AclPatternFilter {
        *self
    }
}

impl Duplicate for AclPatternFilter {
    fn duplicate(&self) -> (r: Self) {
        *self
    }
}

impl AclPatternFilter {
    /// The value that a number stands for.
    pub open spec fn numbered(number: i8) -> Option<AclPatternFilter> {
        if number == 1 {
            Some(AclPatternFilter::Any)
        } else if number == 2 {
            Some(AclPatternFilter::Match)
        } else if number == 3 {
            Some(AclPatternFilter::Literal)
        } else if number == 4 {
            Some(AclPatternFilter::Prefixed)
        } else {
            None
        }
    }

    /// Finds the value that a number stands for.
    pub fn try_from(value: i8) -> (r: Result<AclPatternFilter, ControlError>)
        ensures
            error::outcome(r) == (match AclPatternFilter::numbered(value) {
                Some(found) => Ok(found),
                None => Err(ControlErrorView::InvalidRequest("invalid ACL pattern filter "@ + text::decimal_text(value as int))),
            }),
    {
        match value {
            1 => Ok(AclPatternFilter::Any),
            2 => Ok(AclPatternFilter::Match),
            3 => Ok(AclPatternFilter::Literal),
            4 => Ok(AclPatternFilter::Prefixed),
            _ => Err(ControlError::InvalidRequest(text_with_number("invalid ACL pattern filter ", value as i64))),
        }
    }
}

/// What is done to a resource.
#[derive(Debug, Clone, Copy, PartialEq, Eq, Hash, Structural)]
pub enum AclOperation {
    All,
    Read,
    Write,
    Create,
    Delete,
    Alter,
    Describe,
    ClusterAction,
    DescribeConfigs,
    AlterConfigs,
    IdempotentWrite,
    CreateTokens,
    DescribeTokens,
    TwoPhaseCommit,
}

impl DeepView for AclOperation {
    type V = AclOperation;

    open spec fn deep_view(&self) -> AclOperation {
        *self
    }
}

impl Duplicate for AclOperation {
    fn duplicate(&self) -> (r: Self) {
        *self
    }
}

impl AclOperation {
    /// The number that stands for a value.
    pub open spec fn number(self) -> i8 {
        match self {
            AclOperation::All => 2i8,
            AclOperation::Read => 3i8,
            AclOperation::Write => 4i8,
            AclOperation::Create => 5i8,
            AclOperation::Delete => 6i8,
            AclOperation::Alter => 7i8,
            AclOperation::Describe => 8i8,
            AclOperation::ClusterAction => 9i8,
            AclOperation::DescribeConfigs => 10i8,
            AclOperation::AlterConfigs => 11i8,
            AclOperation::IdempotentWrite => 12i8,
            AclOperation::CreateTokens => 13i8,
            AclOperation::DescribeTokens => 14i8,
            AclOperation::TwoPhaseCommit => 15i8,
        }
    }

    pub fn code(self) -> (r: i8)
        ensures
            r == self.number(),
    {
        match self {
            AclOperation::All => 2,
            AclOperation::Read => 3,
            AclOperation::Write => 4,
            AclOperation::Create => 5,
            AclOperation::Delete => 6,
            AclOperation::Alter => 7,
            AclOperation::Describe => 8,
            AclOperation::ClusterAction => 9,
            AclOperation::DescribeConfigs => 10,
            AclOperation::AlterConfigs => 11,
            AclOperation::IdempotentWrite => 12,
            AclOperation::CreateTokens => 13,
            AclOperation::DescribeTokens => 14,
            AclOperation::TwoPhaseCommit => 15,
        }
    }

    /// The value that a number stands for.
    pub open spec fn numbered(number: i8) -> Option<AclOperation> {
        if number == 2 {
            Some(AclOperation::All)
        } else if number == 3 {
            Some(AclOperation::Read)
        } else if number == 4 {
            Some(AclOperation::Write)
        } else if number == 5 {
            Some(AclOperation::Create)
        } else if number == 6 {
            Some(AclOperation::Delete)
        } else if number == 7 {
            Some(AclOperation::Alter)
        } else if number == 8 {
            Some(AclOperation::Describe)
        } else if number == 9 {
            Some(AclOperation::ClusterAction)
        } else if number == 10 {
            Some(AclOperation::DescribeConfigs)
        } else if number == 11 {
            Some(AclOperation::AlterConfigs)
        } else if number == 12 {
            Some(AclOperation::IdempotentWrite)
        } else if number == 13 {
            Some(AclOperation::CreateTokens)
        } else if number == 14 {
            Some(AclOperation::DescribeTokens)
        } else if number == 15 {
            Some(AclOperation::TwoPhaseCommit)
        } else {
            None
        }
    }

    /// Finds the value that a number stands for.
    pub fn try_from(value: i8) -> (r: Result<AclOperation, ControlError>)
        ensures
            error::outcome(r) == (match AclOperation::numbered(value) {
                Some(found) => Ok(found),
                None => Err(ControlErrorView::InvalidRequest("invalid ACL operation "@ + text::decimal_text(value as int))),
            }),
    {
        match value {
            2 => Ok(AclOperation::All),
            3 => Ok(AclOperation::Read),
            4 => Ok(AclOperation::Write),
            5 => Ok(AclOperation::Create),
            6 => Ok(AclOperation::Delete),
            7 => Ok(AclOperation::Alter),
            8 => Ok(AclOperation::Describe),
            9 => Ok(AclOperation::ClusterAction),
            10 => Ok(AclOperation::DescribeConfigs),
            11 => Ok(AclOperation::AlterConfigs),
            12 => Ok(AclOperation::IdempotentWrite),
            13 => Ok(AclOperation::CreateTokens),
            14 => Ok(AclOperation::DescribeTokens),
            15 => Ok(AclOperation::TwoPhaseCommit),
            _ => Err(ControlError::InvalidRequest(text_with_number("invalid ACL operation ", value as i64))),
        }
    }

    /// The name of a value.
    pub open spec fn title(self) -> Seq<char> {
        match self {
            AclOperation::All => "ALL"@,
            AclOperation::Read => "READ"@,
            AclOperation::Write => "WRITE"@,
            AclOperation::Create => "CREATE"@,
            AclOperation::Delete => "DELETE"@,
            AclOperation::Alter => "ALTER"@,
            AclOperation::Describe => "DESCRIBE"@,
            AclOperation::ClusterAction => "CLUSTER_ACTION"@,
            AclOperation::DescribeConfigs => "DESCRIBE_CONFIGS"@,
            AclOperation::AlterConfigs => "ALTER_CONFIGS"@,
            AclOperation::IdempotentWrite => "IDEMPOTENT_WRITE"@,
            AclOperation::CreateTokens => "CREATE_TOKENS"@,
            AclOperation::DescribeTokens => "DESCRIBE_TOKENS"@,
            AclOperation::TwoPhaseCommit => "TWO_PHASE_COMMIT"@,
        }
    }

    pub fn name(self) -> (r: &'static str)
        ensures
            r@ == self.title(),
    {
        match self {
            AclOperation::All => "ALL",
            AclOperation::Read => "READ",
            AclOperation::Write => "WRITE",
            AclOperation::Create => "CREATE",
            AclOperation::Delete => "DELETE",
            AclOperation::Alter => "ALTER",
            AclOperation::Describe => "DESCRIBE",
            AclOperation::ClusterAction => "CLUSTER_ACTION",
            AclOperation::DescribeConfigs => "DESCRIBE_CONFIGS",
            AclOperation::AlterConfigs => "ALTER_CONFIGS",
            AclOperation::IdempotentWrite => "IDEMPOTENT_WRITE",
            AclOperation::CreateTokens => "CREATE_TOKENS",
            AclOperation::DescribeTokens => "DESCRIBE_TOKENS",
            AclOperation::TwoPhaseCommit => "TWO_PHASE_COMMIT",
        }
    }

    /// The value of a name.
    pub open spec fn titled(name: Seq<char>) -> Option<AclOperation> {
        if name == "ALL"@ {
            Some(AclOperation::All)
        } else if name == "READ"@ {
            Some(AclOperation::Read)
        } else if name == "WRITE"@ {
            Some(AclOperation::Write)
        } else if name == "CREATE"@ {
            Some(AclOperation::Create)
        } else if name == "DELETE"@ {
            Some(AclOperation::Delete)
        } else if name == "ALTER"@ {
            Some(AclOperation::Alter)
        } else if name == "DESCRIBE"@ {
            Some(AclOperation::Describe)
        } else if name == "CLUSTER_ACTION"@ {
            Some(AclOperation::ClusterAction)
        } else if name == "DESCRIBE_CONFIGS"@ {
            Some(AclOperation::DescribeConfigs)
        } else if name == "ALTER_CONFIGS"@ {
            Some(AclOperation::AlterConfigs)
        } else if name == "IDEMPOTENT_WRITE"@ {
            Some(AclOperation::IdempotentWrite)
        } else if name == "CREATE_TOKENS"@ {
            Some(AclOperation::CreateTokens)
        } else if name == "DESCRIBE_TOKENS"@ {
            Some(AclOperation::DescribeTokens)
        } else if name == "TWO_PHASE_COMMIT"@ {
            Some(AclOperation::TwoPhaseCommit)
        } else {
            None
        }
    }

    /// Finds the value of a stored name.
    pub fn from_name(value: &str) -> (r: Result<AclOperation, ControlError>)
        ensures
            error::outcome(r) == (match AclOperation::titled(value@) {
                Some(found) => Ok(found),
                None => Err(ControlErrorView::InvalidRequest("invalid stored ACL operation "@ + value@)),
            }),
    {
        if same_text(value, "ALL") {
            Ok(AclOperation::All)
        } else if same_text(value, "READ") {
            Ok(AclOperation::Read)
        } else if same_text(value, "WRITE") {
            Ok(AclOperation::Write)
        } else if same_text(value, "CREATE") {
            Ok(AclOperation::Create)
        } else if same_text(value, "DELETE") {
            Ok(AclOperation::Delete)
        } else if same_text(value, "ALTER") {
            Ok(AclOperation::Alter)
        } else if same_text(value, "DESCRIBE") {
            Ok(AclOperation::Describe)
        } else if same_text(value, "CLUSTER_ACTION") {
            Ok(AclOperation::ClusterAction)
        } else if same_text(value, "DESCRIBE_CONFIGS") {
            Ok(AclOperation::DescribeConfigs)
        } else if same_text(value, "ALTER_CONFIGS") {
            Ok(AclOperation::AlterConfigs)
        } else if same_text(value, "IDEMPOTENT_WRITE") {
            Ok(AclOperation::IdempotentWrite)
        } else if same_text(value, "CREATE_TOKENS") {
            Ok(AclOperation::CreateTokens)
        } else if same_text(value, "DESCRIBE_TOKENS") {
            Ok(AclOperation::DescribeTokens)
        } else if same_text(value, "TWO_PHASE_COMMIT") {
            Ok(AclOperation::TwoPhaseCommit)
        } else {
            Err(ControlError::InvalidRequest(join_texts("invalid stored ACL operation ", value)))
        }
    }
}

/// What a rule says.
#[derive(Debug, Clone, Copy, PartialEq, Eq, Hash, Structural)]
pub enum AclPermission {
    Deny,
    Allow,
}

impl DeepView for AclPermission {
    type V = AclPermission;

    open spec fn deep_view(&self) -> AclPermission {
        *self
    }
}

impl Duplicate for AclPermission {
    fn duplicate(&self) -> (r: Self) {
        *self
    }
}

impl AclPermission {
    /// The number that stands for a value.
    pub open spec fn number(self) -> i8 {
        match self {
            AclPermission::Deny => 2i8,
            AclPermission::Allow => 3i8,
        }
    }

    pub fn code(self) -> (r: i8)
        ensures
            r == self.number(),
    {
        match self {
            AclPermission::Deny => 2,
            AclPermission::Allow => 3,
        }
    }

    /// The value that a number stands for.
    pub open spec fn numbered(number: i8) -> Option<AclPermission> {
        if number == 2 {
            Some(AclPermission::Deny)
        } else if number == 3 {
            Some(AclPermission::Allow)
        } else {
            None
        }
    }

    /// Finds the value that a number stands for.
    pub fn try_from(value: i8) -> (r: Result<AclPermission, ControlError>)
        ensures
            error::outcome(r) == (match AclPermission::numbered(value) {
                Some(found) => Ok(found),
                None => Err(ControlErrorView::InvalidRequest("invalid ACL permission type "@ + text::decimal_text(value as int))),
            }),
    {
        match value {
            2 => Ok(AclPermission::Deny),
            3 => Ok(AclPermission::Allow),
            _ => Err(ControlError::InvalidRequest(text_with_number("invalid ACL permission type ", value as i64))),
        }
    }

    /// The name of a value.
    pub open spec fn title(self) -> Seq<char> {
        match self {
            AclPermission::Deny => "DENY"@,
            AclPermission::Allow => "ALLOW"@,
        }
    }

    pub fn name(self) -> (r: &'static str)
        ensures
            r@ == self.title(),
    {
        match self {
            AclPermission::Deny => "DENY",
            AclPermission::Allow => "ALLOW",
        }
    }

    /// The value of a name.
    pub open spec fn titled(name: Seq<char>) -> Option<AclPermission> {
        if name == "DENY"@ {
            Some(AclPermission::Deny)
        } else if name == "ALLOW"@ {
            Some(AclPermission::Allow)
        } else {
            None
        }
    }

    /// Finds the value of a stored name.
    pub fn from_name(value: &str) -> (r: Result<AclPermission, ControlError>)
        ensures
            error::outcome(r) == (match AclPermission::titled(value@) {
                Some(found) => Ok(found),
                None => Err(ControlErrorView::InvalidRequest("invalid stored ACL permission "@ + value@)),
            }),
    {
        if same_text(value, "DENY") {
            Ok(AclPermission::Deny)
        } else if same_text(value, "ALLOW") {
            Ok(AclPermission::Allow)
        } else {
            Err(ControlError::InvalidRequest(join_texts("invalid stored ACL permission ", value)))
        }
    }
}

/// A rule: who may, or may not, do what to which resources.
#[derive(Debug, Clone, PartialEq, Eq, Hash)]
pub struct AclRule {
    pub resource_type: AclResourceType,
    pub resource_name: String,
    pub pattern_type: AclPatternType,
    pub principal: String,
    pub host: String,
    pub operation: AclOperation,
    pub permission: AclPermission,
}

/// The model of [`AclRule`].
pub struct AclRuleView {
    pub resource_type: AclResourceType,
    pub resource_name: Seq<char>,
    pub pattern_type: AclPatternType,
    pub principal: Seq<char>,
    pub host: Seq<char>,
    pub operation: AclOperation,
    pub permission: AclPermission,
}

impl DeepView for AclRule {
    type V = AclRuleView;

    open spec fn deep_view(&self) -> AclRuleView {
        AclRuleView {
            resource_type: self.resource_type,
            resource_name: self.resource_name@,
            pattern_type: self.pattern_type,
            principal: self.principal@,
            host: self.host@,
            operation: self.operation,
            permission: self.permission,
        }
    }
}

impl Duplicate for AclRule {
    fn duplicate(&self) -> (r: Self) {
        AclRule {
            resource_type: self.resource_type,
            resource_name: self.resource_name.clone(),
            pattern_type: self.pattern_type,
            principal: self.principal.clone(),
            host: self.host.clone(),
            operation: self.operation,
            permission: self.permission,
        }
    }
}

/// What a search for rules asks for.
#[derive(Debug, Clone, PartialEq, Eq)]
pub struct AclFilter {
    pub resource_type: Option<AclResourceType>,
    pub resource_name: Option<String>,
    pub pattern_type: AclPatternFilter,
    pub principal: Option<String>,
    pub host: Option<String>,
    pub operation: Option<AclOperation>,
    pub permission: Option<AclPermission>,
}

/// The model of [`AclFilter`].
pub struct AclFilterView {
    pub resource_type: Option<AclResourceType>,
    pub resource_name: Option<Seq<char>>,
    pub pattern_type: AclPatternFilter,
    pub principal: Option<Seq<char>>,
    pub host: Option<Seq<char>>,
    pub operation: Option<AclOperation>,
    pub permission: Option<AclPermission>,
}

impl DeepView for AclFilter {
    type V = AclFilterView;

    open spec fn deep_view(&self) -> AclFilterView {
        AclFilterView {
            resource_type: self.resource_type.deep_view(),
            resource_name: self.resource_name.deep_view(),
            pattern_type: self.pattern_type,
            principal: self.principal.deep_view(),
            host: self.host.deep_view(),
            operation: self.operation.deep_view(),
            permission: self.permission.deep_view(),
        }
    }
}
impl AclRule {
    /// Checks that a rule says who and what it is about.
    pub fn validate(&self) -> (r: Result<(), ControlError>)
        ensures
            error::outcome(r) == rule_verdict(self.deep_view()),
    {
        if self.resource_name.as_str().is_empty() || self.principal.as_str().is_empty() || self.host.as_str().is_empty() {
            return Err(ControlError::InvalidRequest("ACL resource name, principal, and host must not be empty".to_owned()));
        }
        if !text::has_char(self.principal.as_str(), ':') {
            return Err(ControlError::InvalidRequest("ACL principal must use PrincipalType:name form".to_owned()));
        }
        Ok(())
    }

    /// Whether a rule is about a resource.
    pub fn applies_to(&self, resource_name: &str) -> (r: bool)
        ensures
            r == applies(self.deep_view(), resource_name@),
    {
        match self.pattern_type {
            AclPatternType::Literal => same_text(self.resource_name.as_str(), "*") || same_text(self.resource_name.as_str(), resource_name),
            AclPatternType::Prefixed => starts_with(resource_name, self.resource_name.as_str()),
        }
    }
}

/// Why a rule is not acceptable.
pub open spec fn rule_verdict(rule: AclRuleView) -> Result<(), ControlErrorView> {
    if rule.resource_name.len() == 0 || rule.principal.len() == 0 || rule.host.len() == 0 {
        Err(ControlErrorView::InvalidRequest("ACL resource name, principal, and host must not be empty"@))
    } else if !rule.principal.contains(':') {
        Err(ControlErrorView::InvalidRequest("ACL principal must use PrincipalType:name form"@))
    } else {
        Ok(())
    }
}

/// Whether a rule is about a resource: by its name, by a part in front, or as any resource.
pub open spec fn applies(rule: AclRuleView, resource_name: Seq<char>) -> bool {
    match rule.pattern_type {
        AclPatternType::Literal => rule.resource_name == "*"@ || rule.resource_name == resource_name,
        AclPatternType::Prefixed => text::begins_with(resource_name, rule.resource_name),
    }
}

/// Whether permission for one operation is permission for another.
pub open spec fn operation_covers(held: AclOperation, requested: AclOperation) -> bool {
    ||| held == AclOperation::All
    ||| held == requested
    ||| requested == AclOperation::Describe && (held == AclOperation::Read || held == AclOperation::Write || held == AclOperation::Delete
        || held == AclOperation::Alter)
    ||| requested == AclOperation::DescribeConfigs && held == AclOperation::AlterConfigs
}

impl AclOperation {
    /// Whether permission for this operation is permission for another.
    pub fn covers(self, requested: AclOperation) -> (r: bool)
        ensures
            r == operation_covers(self, requested),
    {
        self == AclOperation::All || self == requested || (requested == AclOperation::Describe && (self == AclOperation::Read || self
            == AclOperation::Write || self == AclOperation::Delete || self == AclOperation::Alter)) || (requested
            == AclOperation::DescribeConfigs && self == AclOperation::AlterConfigs)
    }
}

/// Whether a filter asks for the resource of a rule.
pub open spec fn resource_asked(filter: AclFilterView, rule: AclRuleView) -> bool {
    match filter.resource_name {
        None => match filter.pattern_type {
            AclPatternFilter::Any => true,
            AclPatternFilter::Match => false,
            AclPatternFilter::Literal => rule.pattern_type == AclPatternType::Literal,
            AclPatternFilter::Prefixed => rule.pattern_type == AclPatternType::Prefixed,
        },
        Some(name) => match filter.pattern_type {
            AclPatternFilter::Any => rule.resource_name == name,
            AclPatternFilter::Match => applies(rule, name),
            AclPatternFilter::Literal => rule.pattern_type == AclPatternType::Literal && rule.resource_name == name,
            AclPatternFilter::Prefixed => rule.pattern_type == AclPatternType::Prefixed && rule.resource_name == name,
        },
    }
}

/// Whether a filter asks for a rule: what it leaves open, any rule meets.
pub open spec fn is_asked(filter: AclFilterView, rule: AclRuleView) -> bool {
    &&& filter.resource_type is None || filter.resource_type == Some(rule.resource_type)
    &&& resource_asked(filter, rule)
    &&& filter.principal is None || filter.principal == Some(rule.principal)
    &&& filter.host is None || filter.host == Some(rule.host)
    &&& filter.operation is None || filter.operation == Some(rule.operation)
    &&& filter.permission is None || filter.permission == Some(rule.permission)
}

impl AclFilter {
    /// Whether the filter asks for a rule.
    pub fn matches(&self, rule: &AclRule) -> (r: bool)
        ensures
            r == is_asked(self.deep_view(), rule.deep_view()),
    {
        let type_asked = match self.resource_type {
            Some(resource_type) => resource_type == rule.resource_type,
            None => true,
        };
        let principal_asked = match &self.principal {
            Some(principal) => same_text(principal.as_str(), rule.principal.as_str()),
            None => true,
        };
        let host_asked = match &self.host {
            Some(host) => same_text(host.as_str(), rule.host.as_str()),
            None => true,
        };
        let operation_asked = match self.operation {
            Some(operation) => operation == rule.operation,
            None => true,
        };
        let permission_asked = match self.permission {
            Some(permission) => permission == rule.permission,
            None => true,
        };
        type_asked && self.pattern_matches(rule) && principal_asked && host_asked && operation_asked && permission_asked
    }

    /// Whether the filter asks for the resource of a rule.
    pub fn pattern_matches(&self, rule: &AclRule) -> (r: bool)
        ensures
            r == resource_asked(self.deep_view(), rule.deep_view()),
    {
        match &self.resource_name {
            None => match self.pattern_type {
                AclPatternFilter::Any => true,
                AclPatternFilter::Match => false,
                AclPatternFilter::Literal => rule.pattern_type == AclPatternType::Literal,
                AclPatternFilter::Prefixed => rule.pattern_type == AclPatternType::Prefixed,
            },
            Some(name) => match self.pattern_type {
                AclPatternFilter::Any => same_text(rule.resource_name.as_str(), name.as_str()),
                AclPatternFilter::Match => rule.applies_to(name.as_str()),
                AclPatternFilter::Literal => rule.pattern_type == AclPatternType::Literal && same_text(
                    rule.resource_name.as_str(),
                    name.as_str(),
                ),
                AclPatternFilter::Prefixed => rule.pattern_type == AclPatternType::Prefixed && same_text(
                    rule.resource_name.as_str(),
                    name.as_str(),
                ),
            },
        }
    }
}

/// Who asks, and from where.
pub struct Asker {
    pub principal: Seq<char>,
    pub host: Seq<char>,
}

/// Whether a rule is about the one who asks.
pub open spec fn is_about(rule: AclRuleView, asker: Asker) -> bool {
    (rule.principal == asker.principal || rule.principal == "User:*"@) && (rule.host == "*"@ || rule.host == asker.host)
}

fn concerns(rule: &AclRule, principal: &str, host: &str) -> (r: bool)
    ensures
        r == is_about(rule.deep_view(), (Asker { principal: principal@, host: host@ })),
{
    (same_text(rule.principal.as_str(), principal) || same_text(rule.principal.as_str(), "User:*")) && (same_text(rule.host.as_str(), "*")
        || same_text(rule.host.as_str(), host))
}

/// Whether some rule is about a resource.
pub open spec fn is_ruled(rules: Seq<AclRuleView>, resource_type: AclResourceType, resource_name: Seq<char>) -> bool {
    exists|i: int| 0 <= i < rules.len() && (#[trigger] rules[i]).resource_type == resource_type && applies(rules[i], resource_name)
}

/// Whether some rule grants, or denies, an operation on a resource to the one who asks.
pub open spec fn some_rule(
    rules: Seq<AclRuleView>,
    asker: Asker,
    resource_type: AclResourceType,
    resource_name: Seq<char>,
    operation: AclOperation,
    permission: AclPermission,
) -> bool {
    exists|i: int| 0 <= i < rules.len() && (#[trigger] rules[i]).resource_type == resource_type && applies(rules[i], resource_name) && is_about(
        rules[i],
        asker,
    ) && operation_covers(rules[i].operation, operation) && rules[i].permission == permission
}

/// Whether rules allow an operation on a resource: some rule has to grant it and none may deny it.
/// Where no rule is about the resource, `allow_if_no_acl` decides.
pub open spec fn is_authorized(
    rules: Seq<AclRuleView>,
    asker: Asker,
    resource_type: AclResourceType,
    resource_name: Seq<char>,
    operation: AclOperation,
    allow_if_no_acl: bool,
) -> bool {
    if !is_ruled(rules, resource_type, resource_name) {
        allow_if_no_acl
    } else {
        some_rule(rules, asker, resource_type, resource_name, operation, AclPermission::Allow) && !some_rule(
            rules,
            asker,
            resource_type,
            resource_name,
            operation,
            AclPermission::Deny,
        )
    }
}

/// Decides whether rules allow an operation on a resource.
pub fn authorize_rules(
    rules: &[AclRule],
    principal: &str,
    host: &str,
    resource_type: AclResourceType,
    resource_name: &str,
    operation: AclOperation,
    allow_if_no_acl: bool,
) -> (r: bool)
    ensures
        r == is_authorized(
            sorted_map::models(rules@),
            (Asker { principal: principal@, host: host@ }),
            resource_type,
            resource_name@,
            operation,
            allow_if_no_acl,
        ),
{
    let ghost all = sorted_map::models(rules@);
    let ghost asker = Asker { principal: principal@, host: host@ };
    let ghost name = resource_name@;
    let mut ruled = false;
    let mut allowed = false;
    let mut i: usize = 0;
    while i < rules.len()
        invariant
            i <= rules@.len(),
            all == sorted_map::models(rules@),
            asker == (Asker { principal: principal@, host: host@ }),
            name == resource_name@,
            ruled == exists|j: int| 0 <= j < i && (#[trigger] all[j]).resource_type == resource_type && applies(all[j], name),
            allowed == exists|j: int| 0 <= j < i && (#[trigger] all[j]).resource_type == resource_type && applies(all[j], name)
                && is_about(all[j], asker) && operation_covers(all[j].operation, operation) && all[j].permission == AclPermission::Allow,
            forall|j: int| 0 <= j < i ==> !((#[trigger] all[j]).resource_type == resource_type && applies(all[j], name)
                && is_about(all[j], asker) && operation_covers(all[j].operation, operation) && all[j].permission == AclPermission::Deny),
        decreases rules@.len() - i,
    {
        let rule = &rules[i];
        assert(all[i as int] == rule.deep_view());
        if rule.resource_type == resource_type && rule.applies_to(resource_name) {
            ruled = true;
            if concerns(rule, principal, host) && rule.operation.covers(operation) {
                match rule.permission {
                    AclPermission::Deny => {
                        assert(some_rule(all, asker, resource_type, name, operation, AclPermission::Deny));
                        return false;
                    },
                    AclPermission::Allow => {
                        allowed = true;
                    },
                }
            }
        }
        i = i + 1;
    }
    if !ruled {
        return allow_if_no_acl;
    }
    allowed
}

/// Whether some rule for exactly that name and kind of pattern grants, or denies, an operation on a
/// type of resource to the one who asks.
pub open spec fn has_pattern(
    rules: Seq<AclRuleView>,
    asker: Asker,
    resource_type: AclResourceType,
    operation: AclOperation,
    permission: AclPermission,
    pattern_type: AclPatternType,
    name: Seq<char>,
) -> bool {
    exists|i: int| 0 <= i < rules.len() && (#[trigger] rules[i]).resource_type == resource_type && is_about(rules[i], asker)
        && (rules[i].operation == operation || rules[i].operation == AclOperation::All) && rules[i].permission == permission
        && rules[i].pattern_type == pattern_type && rules[i].resource_name == name
}

/// Whether a rule in front of a name denies an operation.
pub open spec fn denied_in_front(
    rules: Seq<AclRuleView>,
    asker: Asker,
    resource_type: AclResourceType,
    operation: AclOperation,
    name: Seq<char>,
) -> bool {
    exists|prefix: Seq<char>| #[trigger]
        has_pattern(rules, asker, resource_type, operation, AclPermission::Deny, AclPatternType::Prefixed, prefix) && text::begins_with(
            name,
            prefix,
        )
}

/// Whether a rule grants an operation under a name that no rule takes back.
pub open spec fn grants(
    rules: Seq<AclRuleView>,
    asker: Asker,
    resource_type: AclResourceType,
    operation: AclOperation,
    name: Seq<char>,
) -> bool {
    &&& (has_pattern(rules, asker, resource_type, operation, AclPermission::Allow, AclPatternType::Literal, name) && !has_pattern(
        rules,
        asker,
        resource_type,
        operation,
        AclPermission::Deny,
        AclPatternType::Literal,
        name,
    )) || has_pattern(rules, asker, resource_type, operation, AclPermission::Allow, AclPatternType::Prefixed, name)
    &&& !denied_in_front(rules, asker, resource_type, operation, name)
}

/// The name that stands for any resource when it is asked about a type.
pub const ANY_RESOURCE: &'static str = "hardcode";

/// Whether rules allow an operation on at least one resource of a type.
pub open spec fn is_authorized_somewhere(
    rules: Seq<AclRuleView>,
    asker: Asker,
    resource_type: AclResourceType,
    operation: AclOperation,
    allow_if_no_acl: bool,
) -> bool {
    if is_authorized(rules, asker, resource_type, ANY_RESOURCE@, operation, allow_if_no_acl) {
        true
    } else if has_pattern(rules, asker, resource_type, operation, AclPermission::Deny, AclPatternType::Literal, "*"@) {
        false
    } else if has_pattern(rules, asker, resource_type, operation, AclPermission::Allow, AclPatternType::Literal, "*"@) {
        true
    } else {
        exists|name: Seq<char>| #[trigger] grants(rules, asker, resource_type, operation, name)
    }
}

/// The names in the rules of one permission and one kind of pattern that are about the one who asks.
fn pattern_names(
    rules: &[AclRule],
    principal: &str,
    host: &str,
    resource_type: AclResourceType,
    operation: AclOperation,
    permission: AclPermission,
    pattern_type: AclPatternType,
) -> (r: SortedMap<String, ()>)
    ensures
        forall|name: Seq<char>| #[trigger] r.deep_view().contains_key(name) <==> has_pattern(
            sorted_map::models(rules@),
            (Asker { principal: principal@, host: host@ }),
            resource_type,
            operation,
            permission,
            pattern_type,
            name,
        ),
{
    let ghost all = sorted_map::models(rules@);
    let ghost asker = Asker { principal: principal@, host: host@ };
    let mut r: SortedMap<String, ()> = SortedMap::new();
    let mut i: usize = 0;
    assert(all.take(0) =~= Seq::empty());
    while i < rules.len()
        invariant
            i <= rules@.len(),
            all == sorted_map::models(rules@),
            asker == (Asker { principal: principal@, host: host@ }),
            forall|name: Seq<char>| #[trigger] r.deep_view().contains_key(name) <==> has_pattern(all.take(i as int), asker, resource_type, operation, permission, pattern_type, name),
        decreases rules@.len() - i,
    {
        let rule = &rules[i];
        let ghost then = all.take(i as int);
        let ghost now = all.take(i + 1);
        let ghost before = r.deep_view();
        assert(all[i as int] == rule.deep_view());
        assert(now[i as int] == all[i as int]);
        let fits = rule.resource_type == resource_type && concerns(rule, principal, host) && (rule.operation == operation || rule.operation
            == AclOperation::All) && rule.permission == permission && rule.pattern_type == pattern_type;
        if fits {
            r.insert(rule.resource_name.clone(), ());
        }
        proof {
            assert forall|name: Seq<char>| #[trigger] r.deep_view().contains_key(name) <==> has_pattern(now, asker, resource_type, operation, permission, pattern_type, name) by {
                if has_pattern(then, asker, resource_type, operation, permission, pattern_type, name) {
                    let j = choose|j: int| 0 <= j < then.len() && (#[trigger] then[j]).resource_type == resource_type
                        && is_about(then[j], asker) && (then[j].operation == operation || then[j].operation == AclOperation::All)
                        && then[j].permission == permission && then[j].pattern_type == pattern_type && then[j].resource_name == name;
                    assert(now[j] == then[j]);
                }
                if fits && name == all[i as int].resource_name {
                    assert(now[i as int].resource_name == name);
                }
                if has_pattern(now, asker, resource_type, operation, permission, pattern_type, name) {
                    let j = choose|j: int| 0 <= j < now.len() && (#[trigger] now[j]).resource_type == resource_type
                        && is_about(now[j], asker) && (now[j].operation == operation || now[j].operation == AclOperation::All)
                        && now[j].permission == permission && now[j].pattern_type == pattern_type && now[j].resource_name == name;
                    if j < i {
                        assert(then[j] == now[j]);
                        assert(has_pattern(then, asker, resource_type, operation, permission, pattern_type, name));
                        assert(before.contains_key(name));
                    }
                }
            }
        }
        i = i + 1;
    }
    assert(all.take(i as int) =~= all);
    r
}

/// Whether a text begins with a text of a set.
fn begins_with_any(name: &String, prefixes: &SortedMap<String, ()>) -> (r: bool)
    ensures
        r == exists|prefix: Seq<char>| #[trigger] prefixes.deep_view().contains_key(prefix) && text::begins_with(name@, prefix),
{
    let ghost n = name@;
    let ghost leads = |prefix: Seq<char>, unit: ()| text::begins_with(n, prefix);
    let test = |prefix: &String, unit: &()| -> (b: bool)
        ensures b == leads(prefix.deep_view(), unit.deep_view())
    {
        starts_with(name.as_str(), prefix.as_str())
    };
    let r = prefixes.any(test, Ghost(leads));
    proof {
        let m = prefixes.deep_view();
        if r {
            let prefix = choose|prefix: Seq<char>| #[trigger] m.contains_key(prefix) && leads(prefix, m[prefix]);
            assert(m.contains_key(prefix) && text::begins_with(n, prefix));
        } else {
            assert forall|prefix: Seq<char>| #[trigger] m.contains_key(prefix) implies !text::begins_with(n, prefix) by {
                assert(!leads(prefix, m[prefix]));
            }
        }
    }
    r
}

/// Whether some name of a set is in no set of exceptions and begins with none of some texts.
fn some_left(names: &SortedMap<String, ()>, except: &SortedMap<String, ()>, prefixes: &SortedMap<String, ()>) -> (r: bool)
    ensures
        r == exists|name: Seq<char>| #[trigger] names.deep_view().contains_key(name) && !except.deep_view().contains_key(name)
            && !exists|prefix: Seq<char>| #[trigger]
            prefixes.deep_view().contains_key(prefix) && text::begins_with(name, prefix),
{
    let ghost e = except.deep_view();
    let ghost p = prefixes.deep_view();
    let ghost left = |name: Seq<char>, unit: ()|
        !e.contains_key(name) && !exists|prefix: Seq<char>| #[trigger] p.contains_key(prefix) && text::begins_with(name, prefix);
    let test = |name: &String, unit: &()| -> (b: bool)
        ensures b == left(name.deep_view(), unit.deep_view())
    {
        !except.contains_key(name) && !begins_with_any(name, prefixes)
    };
    let r = names.any(test, Ghost(left));
    proof {
        let m = names.deep_view();
        if r {
            let name = choose|name: Seq<char>| #[trigger] m.contains_key(name) && left(name, m[name]);
            assert(m.contains_key(name) && !e.contains_key(name));
        } else {
            assert forall|name: Seq<char>| #[trigger] m.contains_key(name) implies !(!e.contains_key(name)
                && !exists|prefix: Seq<char>| #[trigger] p.contains_key(prefix) && text::begins_with(name, prefix)) by {
                assert(!left(name, m[name]));
            }
        }
    }
    r
}

/// Decides whether rules allow an operation on at least one resource of a type.
pub fn authorize_by_resource_type_rules(
    rules: &[AclRule],
    principal: &str,
    host: &str,
    resource_type: AclResourceType,
    operation: AclOperation,
    allow_if_no_acl: bool,
) -> (r: bool)
    ensures
        r == is_authorized_somewhere(
            sorted_map::models(rules@),
            (Asker { principal: principal@, host: host@ }),
            resource_type,
            operation,
            allow_if_no_acl,
        ),
{
    let ghost all = sorted_map::models(rules@);
    let ghost asker = Asker { principal: principal@, host: host@ };
    if authorize_rules(rules, principal, host, resource_type, ANY_RESOURCE, operation, allow_if_no_acl) {
        return true;
    }
    let deny_literals = pattern_names(rules, principal, host, resource_type, operation, AclPermission::Deny, AclPatternType::Literal);
    let deny_prefixes = pattern_names(rules, principal, host, resource_type, operation, AclPermission::Deny, AclPatternType::Prefixed);
    let allow_literals = pattern_names(rules, principal, host, resource_type, operation, AclPermission::Allow, AclPatternType::Literal);
    let allow_prefixes = pattern_names(rules, principal, host, resource_type, operation, AclPermission::Allow, AclPatternType::Prefixed);
    let any = "*".to_owned();
    if deny_literals.contains_key(&any) {
        return false;
    }
    if allow_literals.contains_key(&any) {
        return true;
    }
    let nothing: SortedMap<String, ()> = SortedMap::new();
    let by_name = some_left(&allow_literals, &deny_literals, &deny_prefixes);
    let in_front = some_left(&allow_prefixes, &nothing, &deny_prefixes);
    proof {
        let p = deny_prefixes.deep_view();
        assert forall|name: Seq<char>| denied_in_front(all, asker, resource_type, operation, name) <==> exists|prefix: Seq<char>| #[trigger] p.contains_key(prefix) && text::begins_with(name, prefix) by {
            if denied_in_front(all, asker, resource_type, operation, name) {
                let prefix = choose|prefix: Seq<char>| #[trigger] has_pattern(all, asker, resource_type, operation, AclPermission::Deny, AclPatternType::Prefixed, prefix) && text::begins_with(name, prefix);
                assert(p.contains_key(prefix));
            }
            if exists|prefix: Seq<char>| #[trigger] p.contains_key(prefix) && text::begins_with(name, prefix) {
                let prefix = choose|prefix: Seq<char>| #[trigger] p.contains_key(prefix) && text::begins_with(name, prefix);
                assert(has_pattern(all, asker, resource_type, operation, AclPermission::Deny, AclPatternType::Prefixed, prefix));
            }
        }
        if by_name {
            let name = choose|name: Seq<char>| #[trigger] allow_literals.deep_view().contains_key(name)
                && !deny_literals.deep_view().contains_key(name) && !exists|prefix: Seq<char>| #[trigger] p.contains_key(prefix)
                && text::begins_with(name, prefix);
            assert(grants(all, asker, resource_type, operation, name));
        }
        if in_front {
            let name = choose|name: Seq<char>| #[trigger] allow_prefixes.deep_view().contains_key(name)
                && !nothing.deep_view().contains_key(name) && !exists|prefix: Seq<char>| #[trigger] p.contains_key(prefix)
                && text::begins_with(name, prefix);
            assert(grants(all, asker, resource_type, operation, name));
        }
        if exists|name: Seq<char>| #[trigger] grants(all, asker, resource_type, operation, name) {
            let name = choose|name: Seq<char>| #[trigger] grants(all, asker, resource_type, operation, name);
            if has_pattern(all, asker, resource_type, operation, AclPermission::Allow, AclPatternType::Prefixed, name) {
                assert(allow_prefixes.deep_view().contains_key(name));
            } else {
                assert(allow_literals.deep_view().contains_key(name));
            }
        }
    }
    by_name || in_front
}

} // verus!
