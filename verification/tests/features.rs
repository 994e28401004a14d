//! Feature levels.

use control::features::{
    apply_updates, supported_features, FeatureLevelUpdate, FeatureMetadata, FeatureUpgradeType, GROUP_VERSION_FEATURE, KAFKA_4_2_IV0,
    KAFKA_4_2_IV1, KAFKA_4_3_IV0, METADATA_VERSION_FEATURE, TRANSACTION_VERSION_FEATURE,
};
use control::sorted_map::SortedMap;
use control::ControlError;

fn level(levels: &SortedMap<String, i16>, name: &str) -> i16 {
    *levels.get(&name.to_owned()).expect("the feature runs")
}

fn accepted(r: Result<SortedMap<String, i16>, ControlError>) -> SortedMap<String, i16> {
    match r {
        Ok(levels) => levels,
        Err(error) => panic!("refused: {error:?}"),
    }
}

fn refused(r: Result<SortedMap<String, i16>, ControlError>) -> ControlError {
    match r {
        Ok(_) => panic!("accepted"),
        Err(error) => error,
    }
}


fn update(name: &str, level: i16, upgrade_type: FeatureUpgradeType) -> FeatureLevelUpdate {
    FeatureLevelUpdate {
        name: name.to_owned(),
        max_version_level: level,
        upgrade_type,
    }
}

#[test]
fn validates_atomic_feature_transitions() {
    let current = FeatureMetadata::default().finalized;
    let proposed = accepted(apply_updates(
        &current,
        &[update(
            METADATA_VERSION_FEATURE,
            KAFKA_4_2_IV0,
            FeatureUpgradeType::SafeDowngrade,
        )],
    ));
    assert_eq!(level(&proposed, METADATA_VERSION_FEATURE), KAFKA_4_2_IV0);

    let error = refused(apply_updates(
        &current,
        &[
            update(
                METADATA_VERSION_FEATURE,
                KAFKA_4_2_IV0,
                FeatureUpgradeType::SafeDowngrade,
            ),
            update("unknown.feature", 1, FeatureUpgradeType::Upgrade),
        ],
    ));
    assert!(matches!(error, ControlError::InvalidUpdateVersion(_)));
    assert_eq!(level(&current, METADATA_VERSION_FEATURE), KAFKA_4_2_IV1);
}

#[test]
fn rejects_direction_and_metadata_loss_errors() {
    let current = FeatureMetadata::default().finalized;
    assert!(matches!(
        apply_updates(
            &current,
            &[update(
                METADATA_VERSION_FEATURE,
                KAFKA_4_2_IV0,
                FeatureUpgradeType::Upgrade,
            )]
        ),
        Err(ControlError::InvalidUpdateVersion(_))
    ));
    assert!(matches!(
        apply_updates(
            &current,
            &[update(
                METADATA_VERSION_FEATURE,
                22,
                FeatureUpgradeType::SafeDowngrade,
            )]
        ),
        Err(ControlError::InvalidUpdateVersion(_))
    ));
}

#[test]
fn kafka_43_metadata_upgrade_cannot_be_downgraded() {
    let current = FeatureMetadata::default().finalized;
    assert_eq!(level(&current, METADATA_VERSION_FEATURE), KAFKA_4_2_IV1);
    assert_eq!(
        supported_features()
            .iter()
            .find(|feature| feature.name == METADATA_VERSION_FEATURE)
            .unwrap()
            .max_version,
        KAFKA_4_3_IV0
    );

    let upgraded = accepted(apply_updates(
        &current,
        &[update(
            METADATA_VERSION_FEATURE,
            KAFKA_4_3_IV0,
            FeatureUpgradeType::Upgrade,
        )],
    ));
    assert_eq!(level(&upgraded, METADATA_VERSION_FEATURE), KAFKA_4_3_IV0);

    for upgrade_type in [
        FeatureUpgradeType::SafeDowngrade,
        FeatureUpgradeType::UnsafeDowngrade,
    ] {
        let error = refused(apply_updates(
            &upgraded,
            &[update(
                METADATA_VERSION_FEATURE,
                KAFKA_4_2_IV1,
                upgrade_type,
            )],
        ));
        assert!(matches!(error, ControlError::InvalidUpdateVersion(_)));
    }
}

#[test]
fn accepted_updates_change_levels_and_the_epoch_once() {
    let mut features = FeatureMetadata::default();
    assert_eq!(features.level(GROUP_VERSION_FEATURE), 1);
    assert_eq!(features.level("unknown.feature"), 0);
    let off = [update(GROUP_VERSION_FEATURE, 0, FeatureUpgradeType::SafeDowngrade)];
    let asked = features.update_features(&off, true);
    assert!(matches!(asked, Ok(ref seen) if seen.epoch == 0 && seen.level(GROUP_VERSION_FEATURE) == 1));
    let changed = features.update_features(&off, false);
    assert!(matches!(changed, Ok(ref seen) if seen.epoch == 1 && seen.level(GROUP_VERSION_FEATURE) == 0));
    let again = features.update_features(&off, false);
    assert!(matches!(again, Ok(ref seen) if seen.epoch == 1));
    assert_eq!(features.features().level(TRANSACTION_VERSION_FEATURE), 2);
}

#[test]
fn each_broken_rule_is_named() {
    let mut features = FeatureMetadata::default();
    let mut message = |updates: &[FeatureLevelUpdate]| match features.update_features(updates, false) {
        Err(ControlError::InvalidUpdateVersion(text)) => text,
        Err(ControlError::InvalidRequest(text)) => text,
        _ => panic!("accepted"),
    };
    assert_eq!(message(&[update("", 1, FeatureUpgradeType::Upgrade)]), "feature name must not be empty");
    assert_eq!(
        message(&[
            update(GROUP_VERSION_FEATURE, 1, FeatureUpgradeType::Upgrade),
            update(GROUP_VERSION_FEATURE, 1, FeatureUpgradeType::Upgrade),
        ]),
        "feature group.version appears more than once"
    );
    assert_eq!(
        message(&[update(GROUP_VERSION_FEATURE, 9, FeatureUpgradeType::Upgrade)]),
        "invalid update version 9 for feature group.version: supported versions are 0-1"
    );
    assert_eq!(
        message(&[update("x", 1, FeatureUpgradeType::Upgrade)]),
        "invalid update version 1 for feature x: the feature is not supported"
    );
    assert_eq!(
        message(&[update(METADATA_VERSION_FEATURE, 30, FeatureUpgradeType::SafeDowngrade)]),
        "invalid update version 30 for feature metadata.version: a downgrade type cannot be used to select a newer version"
    );
    assert_eq!(
        message(&[update(METADATA_VERSION_FEATURE, 22, FeatureUpgradeType::UnsafeDowngrade)]),
        "invalid update version 22 for feature metadata.version: unsafe metadata downgrade is not supported"
    );
}

#[test]
fn updates_have_no_order_and_can_be_repeated() {
    let forth = vec![
        update(METADATA_VERSION_FEATURE, KAFKA_4_2_IV0, FeatureUpgradeType::SafeDowngrade),
        update(GROUP_VERSION_FEATURE, 0, FeatureUpgradeType::SafeDowngrade),
    ];
    let back = vec![forth[1].clone(), forth[0].clone()];
    let mut one = FeatureMetadata::default();
    let mut other = FeatureMetadata::default();
    for features in [&mut one, &mut other] {
        assert_eq!(features.level(GROUP_VERSION_FEATURE), 1);
    }
    assert!(matches!(one.update_features(&forth, false), Ok(ref seen) if seen.epoch == 1));
    assert!(matches!(other.update_features(&back, false), Ok(ref seen) if seen.epoch == 1));
    for features in [&mut one, &mut other] {
        assert_eq!(features.level(METADATA_VERSION_FEATURE), KAFKA_4_2_IV0);
        assert_eq!(features.level(GROUP_VERSION_FEATURE), 0);
        assert!(matches!(features.update_features(&forth, false), Ok(ref seen) if seen.epoch == 1));
        assert_eq!(features.level(METADATA_VERSION_FEATURE), KAFKA_4_2_IV0);
        assert_eq!(features.level(GROUP_VERSION_FEATURE), 0);
    }
}
