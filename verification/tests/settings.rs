//! Tokens, quotas, credentials and configurations.

use control::client_quotas::{ClientQuotaAlteration, ClientQuotaEntity, ClientQuotas};
use control::configs::Configs;
use control::delegation_tokens::{DelegationToken, DelegationTokens};
use control::scram::{ScramCredential, ScramCredentialAlteration, ScramCredentials};
use control::sorted_map::SortedMap;
use control::ControlError;

fn token(id: &str, secret: u8, expiry: i64, max: i64) -> DelegationToken {
    DelegationToken {
        token_id: id.to_owned(),
        owner_principal: "User:owner".to_owned(),
        requester_principal: "User:asker".to_owned(),
        renewers: vec!["User:renewer".to_owned()],
        issue_timestamp_ms: 0,
        expiry_timestamp_ms: expiry,
        max_timestamp_ms: max,
        hmac: vec![secret],
    }
}

#[test]
fn tokens_are_found_until_their_time_is_over() {
    let mut tokens = DelegationTokens::new();
    assert_eq!(tokens.create_delegation_token(token("b", 1, 100, 1_000)), Ok(()));
    assert_eq!(tokens.create_delegation_token(token("a", 2, 200, 1_000)), Ok(()));
    assert!(matches!(tokens.create_delegation_token(token("b", 3, 100, 1_000)), Err(ControlError::InvalidRequest(_))));
    assert!(matches!(tokens.create_delegation_token(token("c", 2, 100, 1_000)), Err(ControlError::InvalidRequest(_))));
    assert_eq!(tokens.delegation_token_by_id("b", 100).unwrap().hmac, [1]);
    assert!(tokens.delegation_token_by_id("b", 101).is_none());
    let live: Vec<String> = tokens.delegation_tokens(50).into_iter().map(|token| token.token_id).collect();
    assert_eq!(live, ["a", "b"]);
    assert_eq!(tokens.delete_expired_delegation_tokens(150, 10), 1);
    assert_eq!(tokens.delegation_tokens(150).len(), 1);
}

#[test]
fn tokens_are_printed_without_their_secret() {
    let mut shown = token("a\"b", 7, -5, 1_000);
    assert_eq!(
        shown.print(),
        "DelegationToken { token_id: \"a\\\"b\", owner_principal: \"User:owner\", requester_principal: \"User:asker\", \
         renewers: [\"User:renewer\"], issue_timestamp_ms: 0, expiry_timestamp_ms: -5, max_timestamp_ms: 1000, \
         hmac: \"<redacted>\" }"
    );
    shown.renewers = vec![];
    assert!(shown.print().contains("renewers: [],"));
    shown.renewers = vec!["x".to_owned(), "y".to_owned()];
    assert!(shown.print().contains("renewers: [\"x\", \"y\"],"));
    let other = DelegationToken { hmac: vec![9], ..shown.clone() };
    assert_eq!(other.print(), shown.print());
}

#[test]
fn tokens_are_renewed_within_their_greatest_age() {
    let mut tokens = DelegationTokens::new();
    tokens.create_delegation_token(token("a", 1, 100, 1_000)).unwrap();
    assert_eq!(tokens.renew_delegation_token(&[1], "User:renewer", 50, 70, 500), Ok(120));
    assert_eq!(tokens.renew_delegation_token(&[1], "User:owner", 50, 0, 500), Ok(550));
    assert_eq!(tokens.renew_delegation_token(&[1], "User:asker", 500, i64::MAX, i64::MAX), Ok(1_000));
    assert_eq!(tokens.renew_delegation_token(&[9], "User:owner", 50, 70, 500), Err(ControlError::DelegationTokenNotFound));
    assert_eq!(tokens.renew_delegation_token(&[1], "User:stranger", 50, 70, 500), Err(ControlError::DelegationTokenOwnerMismatch));
    assert_eq!(tokens.renew_delegation_token(&[1], "User:owner", 1_001, 70, 500), Err(ControlError::DelegationTokenExpired));
}

#[test]
fn tokens_are_ended_by_those_who_may() {
    let mut tokens = DelegationTokens::new();
    tokens.create_delegation_token(token("a", 1, 100, 1_000)).unwrap();
    assert_eq!(tokens.expire_delegation_token(&[1], "User:stranger", 10, -1), Err(ControlError::DelegationTokenOwnerMismatch));
    assert_eq!(tokens.expire_delegation_token(&[1], "User:owner", 10, 30), Ok(40));
    assert_eq!(tokens.expire_delegation_token(&[1], "User:owner", 50, 30), Err(ControlError::DelegationTokenExpired));
    assert_eq!(tokens.expire_delegation_token(&[1], "User:owner", 50, -1), Ok(50));
    assert_eq!(tokens.expire_delegation_token(&[1], "User:owner", 50, -1), Err(ControlError::DelegationTokenNotFound));
}

fn entity(user: Option<Option<&str>>, client_id: Option<Option<&str>>) -> ClientQuotaEntity {
    ClientQuotaEntity {
        user: user.map(|name| name.map(str::to_owned)),
        client_id: client_id.map(|name| name.map(str::to_owned)),
        ip: None,
    }
}

fn limits(pairs: &[(&str, Option<f64>)]) -> SortedMap<String, Option<u64>> {
    let mut map = SortedMap::new();
    for (key, value) in pairs {
        map.insert((*key).to_owned(), value.map(f64::to_bits));
    }
    map
}

#[test]
fn quotas_are_kept_by_entity() {
    assert_eq!(entity(Some(Some("alice")), Some(None)).storage_key(), "u5:alice|cd|i-|");
    assert_eq!(entity(Some(Some("ä")), None).storage_key(), "u2:ä|c-|i-|");
    assert_eq!(entity(Some(None), None).dimensions(), [("user", None)]);
    assert_eq!(entity(Some(None), Some(Some("app"))).dimension_count(), 2);
    let mut quotas = ClientQuotas::new();
    quotas.alter_client_quotas(&[
        ClientQuotaAlteration { entity: entity(Some(Some("bob")), None), ops: limits(&[("producer_byte_rate", Some(2.5))]) },
        ClientQuotaAlteration {
            entity: entity(Some(Some("alice")), None),
            ops: limits(&[("producer_byte_rate", Some(1.0)), ("consumer_byte_rate", Some(3.0))]),
        },
    ]);
    quotas.alter_client_quotas(&[ClientQuotaAlteration {
        entity: entity(Some(Some("alice")), None),
        ops: limits(&[("producer_byte_rate", None)]),
    }]);
    let all = quotas.client_quotas();
    assert_eq!(all.len(), 2);
    assert_eq!(all[0].entity, entity(Some(Some("alice")), None));
    assert_eq!(all[0].values.keys(), ["consumer_byte_rate"]);
    assert_eq!(all[1].values.get(&"producer_byte_rate".to_owned()).map(|bits| f64::from_bits(*bits)), Some(2.5));
    quotas.alter_client_quotas(&[ClientQuotaAlteration {
        entity: entity(Some(Some("alice")), None),
        ops: limits(&[("consumer_byte_rate", None)]),
    }]);
    assert_eq!(quotas.client_quotas().len(), 1);
}

#[test]
fn credentials_are_kept_by_user_and_mechanism() {
    let credential = |user: &str, mechanism: i8, secret: u8| ScramCredential { user: user.to_owned(), mechanism, secret: vec![secret] };
    let mut credentials = ScramCredentials::new();
    let missing = credentials.alter_scram_credentials(&vec![
        ScramCredentialAlteration::Upsert(credential("bob", 1, 1)),
        ScramCredentialAlteration::Upsert(credential("alice", 2, 2)),
        ScramCredentialAlteration::Upsert(credential("alice", 1, 3)),
        ScramCredentialAlteration::Delete { user: "carol".to_owned(), mechanism: 1 },
    ]);
    assert_eq!(missing.keys(), ["carol"]);
    let secrets: Vec<u8> = credentials.scram_credentials(None).iter().map(|credential| credential.secret[0]).collect();
    assert_eq!(secrets, [3, 2, 1]);
    let missing = credentials.alter_scram_credentials(&vec![ScramCredentialAlteration::Delete { user: "alice".to_owned(), mechanism: 2 }]);
    assert!(missing.is_empty());
    assert_eq!(credentials.scram_credentials(Some(&vec!["alice".to_owned()])).len(), 1);
}

#[test]
fn configurations_change_only_when_asked_to() {
    let mut changes: SortedMap<String, Option<String>> = SortedMap::new();
    changes.insert("session.timeout.ms".to_owned(), Some("5".to_owned()));
    let mut configs = Configs::new();
    configs.alter_group_config("readers", &changes, true);
    assert!(configs.group_config_ids().is_empty());
    configs.alter_group_config("readers", &changes, false);
    assert_eq!(configs.group_config_ids(), ["readers"]);
    assert_eq!(configs.group_config("readers").get(&"session.timeout.ms".to_owned()), Some(&"5".to_owned()));
    configs.alter_broker_config(&changes, false);
    assert_eq!(configs.broker_config().len(), 1);
    let mut removal: SortedMap<String, Option<String>> = SortedMap::new();
    removal.insert("session.timeout.ms".to_owned(), None);
    configs.alter_group_config("readers", &removal, false);
    assert!(configs.group_config("readers").is_empty());
    assert!(configs.group_config_ids().is_empty());
}
