//! Access rules.

use control::acl_store::AclStore;
use control::acls::{
    authorize_by_resource_type_rules, authorize_rules, AclFilter, AclOperation, AclPatternFilter, AclPatternType, AclPermission,
    AclResourceType, AclRule,
};
use control::ControlError;


fn rule(pattern_type: AclPatternType, permission: AclPermission) -> AclRule {
    AclRule {
        resource_type: AclResourceType::Topic,
        resource_name: "orders".to_owned(),
        pattern_type,
        principal: "User:alice".to_owned(),
        host: "*".to_owned(),
        operation: AclOperation::Read,
        permission,
    }
}

#[test]
fn match_filter_applies_literal_prefixed_and_wildcard_rules() {
    let filter = AclFilter {
        resource_type: Some(AclResourceType::Topic),
        resource_name: Some("orders-v2".to_owned()),
        pattern_type: AclPatternFilter::Match,
        principal: None,
        host: None,
        operation: None,
        permission: None,
    };
    assert!(filter.matches(&rule(AclPatternType::Prefixed, AclPermission::Allow)));
    assert!(!filter.matches(&rule(AclPatternType::Literal, AclPermission::Allow)));
    let wildcard = AclRule {
        resource_name: "*".to_owned(),
        pattern_type: AclPatternType::Literal,
        ..rule(AclPatternType::Literal, AclPermission::Allow)
    };
    assert!(filter.matches(&wildcard));
}

#[test]
fn resource_type_authorization_honors_dominant_denies() {
    let make_rule =
        |name: &str, pattern_type: AclPatternType, permission: AclPermission| AclRule {
            resource_type: AclResourceType::Topic,
            resource_name: name.to_owned(),
            pattern_type,
            principal: "User:alice".to_owned(),
            host: "*".to_owned(),
            operation: AclOperation::Write,
            permission,
        };
    let authorized = |rules: &[AclRule]| {
        authorize_by_resource_type_rules(
            rules,
            "User:alice",
            "127.0.0.1",
            AclResourceType::Topic,
            AclOperation::Write,
            false,
        )
    };

    assert!(authorized(&[make_rule(
        "orders",
        AclPatternType::Literal,
        AclPermission::Allow,
    )]));
    assert!(!authorized(&[
        make_rule("orders", AclPatternType::Literal, AclPermission::Allow,),
        make_rule("orders", AclPatternType::Literal, AclPermission::Deny,),
    ]));
    assert!(!authorized(&[
        make_rule(
            "private-orders",
            AclPatternType::Literal,
            AclPermission::Allow,
        ),
        make_rule("private-", AclPatternType::Prefixed, AclPermission::Deny,),
    ]));
    assert!(authorized(&[
        make_rule("orders-", AclPatternType::Prefixed, AclPermission::Allow,),
        make_rule(
            "orders-secret",
            AclPatternType::Literal,
            AclPermission::Deny,
        ),
    ]));
    assert!(!authorized(&[
        make_rule("*", AclPatternType::Literal, AclPermission::Allow),
        make_rule("*", AclPatternType::Literal, AclPermission::Deny),
    ]));
}

#[test]
fn deny_wins_and_operation_implications_match_kafka() {
    let allow = AclRule {
        operation: AclOperation::Write,
        ..rule(AclPatternType::Literal, AclPermission::Allow)
    };
    assert!(authorize_rules(
        std::slice::from_ref(&allow),
        "User:alice",
        "127.0.0.1",
        AclResourceType::Topic,
        "orders",
        AclOperation::Describe,
        false,
    ));
    let deny = AclRule {
        principal: "User:*".to_owned(),
        operation: AclOperation::All,
        permission: AclPermission::Deny,
        ..allow
    };
    assert!(!authorize_rules(
        &[rule(AclPatternType::Literal, AclPermission::Allow), deny],
        "User:alice",
        "127.0.0.1",
        AclResourceType::Topic,
        "orders",
        AclOperation::Read,
        true,
    ));
}

#[test]
fn two_phase_commit_operation_round_trips_without_write_implication() {
    assert_eq!(
        AclOperation::try_from(15).unwrap(),
        AclOperation::TwoPhaseCommit
    );
    assert_eq!(AclOperation::TwoPhaseCommit.name(), "TWO_PHASE_COMMIT");
    assert_eq!(
        AclOperation::from_name("TWO_PHASE_COMMIT").unwrap(),
        AclOperation::TwoPhaseCommit
    );
    let write = AclRule {
        resource_type: AclResourceType::TransactionalId,
        resource_name: "orders-tx".to_owned(),
        operation: AclOperation::Write,
        ..rule(AclPatternType::Literal, AclPermission::Allow)
    };
    assert!(!authorize_rules(
        std::slice::from_ref(&write),
        "User:alice",
        "127.0.0.1",
        AclResourceType::TransactionalId,
        "orders-tx",
        AclOperation::TwoPhaseCommit,
        false,
    ));
    let all = AclRule {
        operation: AclOperation::All,
        ..write
    };
    assert!(authorize_rules(
        std::slice::from_ref(&all),
        "User:alice",
        "127.0.0.1",
        AclResourceType::TransactionalId,
        "orders-tx",
        AclOperation::TwoPhaseCommit,
        false,
    ));
}

fn any_filter() -> AclFilter {
    AclFilter {
        resource_type: None,
        resource_name: None,
        pattern_type: AclPatternFilter::Any,
        principal: None,
        host: None,
        operation: None,
        permission: None,
    }
}

#[test]
fn every_code_and_every_name_is_read_back() {
    for code in 0..=40i8 {
        if let Ok(value) = AclResourceType::try_from(code) {
            assert_eq!(value.code(), code);
            assert_eq!(AclResourceType::from_name(value.name()), Ok(value));
        }
        if let Ok(value) = AclPatternType::try_from(code) {
            assert_eq!(value.code(), code);
            assert_eq!(AclPatternType::from_name(value.name()), Ok(value));
        }
        if let Ok(value) = AclOperation::try_from(code) {
            assert_eq!(value.code(), code);
            assert_eq!(AclOperation::from_name(value.name()), Ok(value));
        }
        if let Ok(value) = AclPermission::try_from(code) {
            assert_eq!(value.code(), code);
            assert_eq!(AclPermission::from_name(value.name()), Ok(value));
        }
    }
    assert_eq!(AclResourceType::Topic.code(), 2);
    assert_eq!(AclOperation::All.code(), 2);
    assert!(matches!(AclResourceType::try_from(99), Err(ControlError::InvalidRequest(_))));
    assert!(matches!(AclOperation::from_name("FLY"), Err(ControlError::InvalidRequest(_))));
}

#[test]
fn stored_rules_are_found_once_and_in_order() {
    let mut store = AclStore::new();
    let mut later = rule(AclPatternType::Literal, AclPermission::Allow);
    later.resource_name = "payments".to_owned();
    assert_eq!(store.create_acl(later.clone()), Ok(()));
    assert_eq!(store.create_acl(rule(AclPatternType::Literal, AclPermission::Allow)), Ok(()));
    assert_eq!(store.create_acl(rule(AclPatternType::Literal, AclPermission::Allow)), Ok(()));
    let found = store.describe_acls(&any_filter());
    assert_eq!(found, [rule(AclPatternType::Literal, AclPermission::Allow), later]);
    let mut nameless = rule(AclPatternType::Literal, AclPermission::Allow);
    nameless.resource_name = String::new();
    assert!(matches!(store.create_acl(nameless), Err(ControlError::InvalidRequest(_))));
    assert_eq!(store.describe_acls(&any_filter()).len(), 2);
}

#[test]
fn deleted_rules_are_told_by_filter_and_gone() {
    let mut store = AclStore::new();
    let allow = rule(AclPatternType::Literal, AclPermission::Allow);
    let deny = rule(AclPatternType::Literal, AclPermission::Deny);
    store.create_acl(allow.clone()).unwrap();
    store.create_acl(deny.clone()).unwrap();
    let mut denials = any_filter();
    denials.permission = Some(AclPermission::Deny);
    let deleted = store.delete_acls(&[denials, any_filter()]);
    assert_eq!(deleted, [vec![deny], vec![allow]]);
    assert!(store.describe_acls(&any_filter()).is_empty());
    assert!(store.authorize("User:alice", "127.0.0.1", AclResourceType::Topic, "orders", AclOperation::Read, true));
    assert!(!store.authorize("User:alice", "127.0.0.1", AclResourceType::Topic, "orders", AclOperation::Read, false));
}

#[test]
fn stored_rules_decide_over_resources_of_a_type() {
    let mut store = AclStore::new();
    let asked = |store: &AclStore, principal: &str, open: bool| {
        store.authorize_by_resource_type(principal, "127.0.0.1", AclResourceType::Topic, AclOperation::Read, open)
    };
    assert!(asked(&store, "User:alice", true));
    assert!(!asked(&store, "User:alice", false));
    store.create_acl(rule(AclPatternType::Prefixed, AclPermission::Allow)).unwrap();
    assert!(asked(&store, "User:alice", false));
    assert!(!asked(&store, "User:bob", false));
    let mut denied = rule(AclPatternType::Prefixed, AclPermission::Deny);
    denied.resource_name = "or".to_owned();
    store.create_acl(denied).unwrap();
    assert!(!asked(&store, "User:alice", false));
}
