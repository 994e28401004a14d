//! Subscriptions to client metrics.

use control::client_metrics::{
    apply_alteration, holds_with, read_rules, ClientMetricConfigAlteration, ClientMetricSubscription, ClientMetrics, CLIENT_ID,
    CLIENT_METRICS_DEFAULT_INTERVAL_MS, CLIENT_METRICS_INTERVAL_MS, CLIENT_METRICS_MATCH, CLIENT_METRICS_METRICS, CLIENT_SOFTWARE_NAME,
};
use control::sorted_map::SortedMap;
use control::ControlError;

fn settings<V: control::sorted_map::Duplicate>(pairs: impl IntoIterator<Item = (String, V)>) -> SortedMap<String, V> {
    let mut map = SortedMap::new();
    for (key, value) in pairs {
        map.insert(key, value);
    }
    map
}

fn accepted<T>(r: Result<T, ControlError>) -> T {
    match r {
        Ok(value) => value,
        Err(error) => panic!("refused: {error:?}"),
    }
}


fn alteration(
    ops: impl IntoIterator<Item = (&'static str, Option<&'static str>)>,
) -> ClientMetricConfigAlteration {
    ClientMetricConfigAlteration {
        name: "java-clients".to_owned(),
        ops: settings(
            ops.into_iter()
                .map(|(key, value)| (key.to_owned(), value.map(str::to_owned))),
        ),
    }
}

#[test]
fn validates_and_matches_client_subscriptions() {
    let subscription = accepted(apply_alteration(
        None,
        &alteration([
            (CLIENT_METRICS_METRICS, Some("producer., consumer.")),
            (CLIENT_METRICS_INTERVAL_MS, Some("100")),
            (
                CLIENT_METRICS_MATCH,
                Some("client_id=flink-.*,client_software_name=apache-kafka-java"),
            ),
        ]),
    ))
    .unwrap();
    assert_eq!(subscription.metrics(), vec!["producer.", "consumer."]);
    assert_eq!(subscription.push_interval_ms(), 100);
    assert!(subscription.matches(&settings([
        (CLIENT_ID.to_owned(), "flink-producer".to_owned()),
        (
            CLIENT_SOFTWARE_NAME.to_owned(),
            "apache-kafka-java".to_owned()
        ),
    ])));
}

#[test]
fn rejects_invalid_keys_intervals_and_patterns_atomically() {
    for ops in [
        vec![("unknown", Some("value"))],
        vec![(CLIENT_METRICS_INTERVAL_MS, Some("99"))],
        vec![(CLIENT_METRICS_MATCH, Some("client_id=["))],
        vec![(CLIENT_METRICS_MATCH, Some("unknown=.*"))],
    ] {
        assert!(apply_alteration(None, &alteration(ops)).is_err());
    }
}

#[test]
fn removing_the_last_key_removes_the_resource() {
    let current = accepted(apply_alteration(None, &alteration([(CLIENT_METRICS_METRICS, Some("*"))])));
    let removed = accepted(apply_alteration(current, &alteration([(CLIENT_METRICS_METRICS, None)])));
    assert!(removed.is_none());
}

fn subscription(pairs: &[(&str, &str)]) -> ClientMetricSubscription {
    ClientMetricSubscription {
        name: "java-clients".to_owned(),
        configs: settings(pairs.iter().map(|(key, value)| ((*key).to_owned(), (*value).to_owned()))),
    }
}

fn refusal(subscription: &ClientMetricSubscription) -> String {
    match subscription.validate() {
        Err(ControlError::InvalidRequest(text)) => text,
        other => panic!("{other:?}"),
    }
}

#[test]
fn each_refusal_names_its_reason() {
    assert_eq!(refusal(&subscription(&[("unknown", "x")])), "unknown client metrics configuration unknown");
    assert_eq!(
        refusal(&subscription(&[(CLIENT_METRICS_INTERVAL_MS, "soon")])),
        "client metrics configuration interval.ms must be an integer"
    );
    assert_eq!(
        refusal(&subscription(&[(CLIENT_METRICS_INTERVAL_MS, "3600001")])),
        "client metrics configuration interval.ms must be between 100 and 3600000"
    );
    assert_eq!(
        refusal(&subscription(&[(CLIENT_METRICS_MATCH, "client_id=a=b")])),
        "illegal client matching pattern client_id=a=b"
    );
    let nameless = ClientMetricSubscription { name: String::new(), configs: settings(Vec::<(String, String)>::new()) };
    assert_eq!(refusal(&nameless), "client metrics subscription name cannot be empty");
}

#[test]
fn intervals_are_read_like_numbers() {
    let interval = |text: &str| subscription(&[(CLIENT_METRICS_INTERVAL_MS, text)]).push_interval_ms();
    assert_eq!(interval("+500"), 500);
    assert_eq!(interval("-7"), -7);
    assert_eq!(interval("2147483647"), i32::MAX);
    assert_eq!(interval("-2147483648"), i32::MIN);
    for text in ["", "+", "-", "1_000", " 5", "2147483648", "-2147483649", "99999999999999999999"] {
        assert_eq!(interval(text), CLIENT_METRICS_DEFAULT_INTERVAL_MS);
    }
    assert_eq!(subscription(&[]).push_interval_ms(), 300_000);
}

#[test]
fn lists_lose_blanks_and_empty_items() {
    let listed = subscription(&[(CLIENT_METRICS_METRICS, " a\u{3000}, ,\u{a0}b c\t,,")]).metrics();
    assert_eq!(listed, ["a", "b c"]);
    assert!(subscription(&[]).metrics().is_empty());
}

#[test]
fn patterns_are_found_anywhere_in_an_attribute() {
    let matched = subscription(&[(CLIENT_METRICS_MATCH, " client_id = b+ ")]);
    let attributes = |id: &str| settings([(CLIENT_ID.to_owned(), id.to_owned())]);
    assert!(matched.matches(&attributes("abbbc")));
    assert!(!matched.matches(&attributes("ac")));
    assert!(!matched.matches(&settings(Vec::<(String, String)>::new())));
    assert!(subscription(&[]).matches(&attributes("anything")));
}

#[test]
fn given_results_decide_without_compiling_a_pattern() {
    let entries = vec!["client_id=[".to_owned()];
    assert!(read_rules(&entries, &vec![true]).is_err());
    let rules = accepted(read_rules(&entries, &vec![false]));
    assert_eq!(rules, [("client_id".to_owned(), "[".to_owned())]);
    let attributes = settings([(CLIENT_ID.to_owned(), "x".to_owned())]);
    assert!(holds_with(&rules, &attributes, &vec![true]));
    assert!(!holds_with(&rules, &attributes, &vec![false]));
}

#[test]
fn stored_subscriptions_change_only_when_asked_to() {
    let mut store = ClientMetrics::new();
    let wanted = alteration([(CLIENT_METRICS_METRICS, Some("producer."))]);
    assert_eq!(store.alter_client_metric_subscription(&wanted, true), Ok(()));
    assert!(store.client_metric_subscription("java-clients").is_none());
    assert_eq!(store.alter_client_metric_subscription(&wanted, false), Ok(()));
    assert_eq!(store.client_metric_subscriptions().len(), 1);
    let broken = alteration([(CLIENT_METRICS_MATCH, Some("client_id=["))]);
    assert!(store.alter_client_metric_subscription(&broken, false).is_err());
    assert_eq!(store.client_metric_subscription("java-clients").unwrap().metrics(), ["producer."]);
    let gone = alteration([(CLIENT_METRICS_METRICS, None)]);
    assert_eq!(store.alter_client_metric_subscription(&gone, false), Ok(()));
    assert!(store.client_metric_subscriptions().is_empty());
}
