//! Features and the levels at which a cluster runs them.

use crate::error;
use crate::error::{ControlError, ControlErrorView};
use crate::sorted_map;
use crate::sorted_map::{Duplicate, SortedMap};
use crate::text;
use crate::text::{append_decimal, join_three, same_text};
use vstd::prelude::*;

verus! {

pub const METADATA_VERSION_FEATURE: &'static str = "metadata.version";

pub const TRANSACTION_VERSION_FEATURE: &'static str = "transaction.version";

pub const GROUP_VERSION_FEATURE: &'static str = "group.version";

pub const SHARE_VERSION_FEATURE: &'static str = "share.version";

pub const STREAMS_VERSION_FEATURE: &'static str = "streams.version";

pub const KAFKA_4_0_IV0: i16 = 22;

pub const KAFKA_4_0_IV1: i16 = 23;

pub const KAFKA_4_0_IV2: i16 = 24;

pub const KAFKA_4_0_IV3: i16 = 25;

pub const KAFKA_4_2_IV0: i16 = 28;

pub const KAFKA_4_2_IV1: i16 = 29;

pub const KAFKA_4_3_IV0: i16 = 30;

pub const TRANSACTION_VERSION_2: i16 = 2;

pub const CONSUMER_GROUP_VERSION: i16 = 1;

pub const SHARE_GROUP_VERSION: i16 = 1;

pub const STREAMS_GROUP_VERSION: i16 = 1;

/// A feature that this broker knows, and the levels of it that it can run.
#[derive(Clone, Copy, Debug, PartialEq, Eq)]
pub struct SupportedFeature {
    pub name: &'static str,
    pub min_version: i16,
    pub max_version: i16,
}

/// The levels that can be run of a feature, from the lowest to the highest.
pub open spec fn supported_range(name: Seq<char>) -> Option<(int, int)> {
    if name == METADATA_VERSION_FEATURE@ {
        Some((KAFKA_4_0_IV0 as int, KAFKA_4_3_IV0 as int))
    } else if name == TRANSACTION_VERSION_FEATURE@ {
        Some((0, TRANSACTION_VERSION_2 as int))
    } else if name == GROUP_VERSION_FEATURE@ {
        Some((0, CONSUMER_GROUP_VERSION as int))
    } else if name == SHARE_VERSION_FEATURE@ {
        Some((0, SHARE_GROUP_VERSION as int))
    } else if name == STREAMS_VERSION_FEATURE@ {
        Some((0, STREAMS_GROUP_VERSION as int))
    } else {
        None
    }
}

/// The names of the supported features, in the order in which they are listed.
pub open spec fn supported_names() -> Seq<Seq<char>> {
    seq![
        METADATA_VERSION_FEATURE@,
        TRANSACTION_VERSION_FEATURE@,
        GROUP_VERSION_FEATURE@,
        SHARE_VERSION_FEATURE@,
        STREAMS_VERSION_FEATURE@,
    ]
}

proof fn names_differ()
    ensures
        METADATA_VERSION_FEATURE@ != TRANSACTION_VERSION_FEATURE@,
        METADATA_VERSION_FEATURE@ != GROUP_VERSION_FEATURE@,
        METADATA_VERSION_FEATURE@ != SHARE_VERSION_FEATURE@,
        METADATA_VERSION_FEATURE@ != STREAMS_VERSION_FEATURE@,
        TRANSACTION_VERSION_FEATURE@ != GROUP_VERSION_FEATURE@,
        TRANSACTION_VERSION_FEATURE@ != SHARE_VERSION_FEATURE@,
        TRANSACTION_VERSION_FEATURE@ != STREAMS_VERSION_FEATURE@,
        GROUP_VERSION_FEATURE@ != SHARE_VERSION_FEATURE@,
        GROUP_VERSION_FEATURE@ != STREAMS_VERSION_FEATURE@,
        SHARE_VERSION_FEATURE@ != STREAMS_VERSION_FEATURE@,
{
    reveal_strlit("metadata.version");
    reveal_strlit("transaction.version");
    reveal_strlit("group.version");
    reveal_strlit("share.version");
    reveal_strlit("streams.version");
    assert("metadata.version"@.len() == 16);
    assert("transaction.version"@.len() == 19);
    assert("group.version"@.len() == 13 && "group.version"@[0] == 'g');
    assert("share.version"@.len() == 13 && "share.version"@[0] == 's');
    assert("streams.version"@.len() == 15);
}

/// The features that this broker knows.
pub fn supported_features() -> (r: Vec<SupportedFeature>)
    ensures
        r@.len() == supported_names().len(),
        forall|i: int|
            0 <= i < r@.len() ==> (#[trigger] r@[i]).name@ == supported_names()[i] && supported_range(r@[i].name@) == Some(
                (r@[i].min_version as int, r@[i].max_version as int),
            ),
{
    proof {
        names_differ();
    }
    let mut r: Vec<SupportedFeature> = Vec::new();
    r.push(SupportedFeature { name: METADATA_VERSION_FEATURE, min_version: KAFKA_4_0_IV0, max_version: KAFKA_4_3_IV0 });
    r.push(SupportedFeature { name: TRANSACTION_VERSION_FEATURE, min_version: 0, max_version: TRANSACTION_VERSION_2 });
    r.push(SupportedFeature { name: GROUP_VERSION_FEATURE, min_version: 0, max_version: CONSUMER_GROUP_VERSION });
    r.push(SupportedFeature { name: SHARE_VERSION_FEATURE, min_version: 0, max_version: SHARE_GROUP_VERSION });
    r.push(SupportedFeature { name: STREAMS_VERSION_FEATURE, min_version: 0, max_version: STREAMS_GROUP_VERSION });
    r
}

fn find_supported(name: &str) -> (r: Option<SupportedFeature>)
    ensures
        match r {
            Some(feature) => supported_range(name@) == Some((feature.min_version as int, feature.max_version as int)),
            None => supported_range(name@) is None,
        },
{
    let features = supported_features();
    let mut i: usize = 0;
    while i < features.len()
        invariant
            i <= features@.len(),
            features@.len() == supported_names().len(),
            forall|j: int|
                0 <= j < features@.len() ==> (#[trigger] features@[j]).name@ == supported_names()[j] && supported_range(
                    features@[j].name@,
                ) == Some((features@[j].min_version as int, features@[j].max_version as int)),
            forall|j: int| 0 <= j < i ==> #[trigger] supported_names()[j] != name@,
        decreases features@.len() - i,
    {
        if same_text(features[i].name, name) {
            return Some(features[i]);
        }
        assert(features@[i as int].name@ == supported_names()[i as int]);
        i = i + 1;
    }
    assert(supported_names()[0] != name@ && supported_names()[1] != name@ && supported_names()[2] != name@ && supported_names()[3] != name@
        && supported_names()[4] != name@);
    None
}

/// The levels at which the cluster runs its features, and how often they have changed.
pub struct FeatureMetadata {
    pub epoch: i64,
    pub finalized: SortedMap<String, i16>,
}

/// The model of [`FeatureMetadata`].
pub struct FeatureMetadataView {
    pub epoch: i64,
    pub finalized: Map<Seq<char>, i16>,
}

impl DeepView for FeatureMetadata {
    type V = FeatureMetadataView;

    open spec fn deep_view(&self) -> FeatureMetadataView {
        FeatureMetadataView {
            epoch: self.epoch,
            finalized: self.finalized.deep_view(),
        }
    }
}

impl Duplicate for FeatureMetadata {
    fn duplicate(&self) -> (r: Self) {
        FeatureMetadata {
            epoch: self.epoch,
            finalized: self.finalized.duplicate(),
        }
    }
}

/// The level at which a feature runs: zero where it is off.
pub open spec fn level_of(levels: Map<Seq<char>, i16>, name: Seq<char>) -> i16 {
    if levels.contains_key(name) {
        levels[name]
    } else {
        0
    }
}

/// The levels of a new cluster.
pub open spec fn default_levels() -> Map<Seq<char>, i16> {
    map![
        METADATA_VERSION_FEATURE@ => KAFKA_4_2_IV1,
        TRANSACTION_VERSION_FEATURE@ => TRANSACTION_VERSION_2,
        GROUP_VERSION_FEATURE@ => CONSUMER_GROUP_VERSION,
        SHARE_VERSION_FEATURE@ => SHARE_GROUP_VERSION,
        STREAMS_VERSION_FEATURE@ => STREAMS_GROUP_VERSION
    ]
}

fn find_level(levels: &SortedMap<String, i16>, name: &str) -> (r: i16)
    ensures
        r == level_of(levels.deep_view(), name@),
{
    match levels.get(&name.to_owned()) {
        Some(level) => *level,
        None => 0,
    }
}

impl FeatureMetadata {
    /// The level at which a feature runs.
    pub fn level(&self, name: &str) -> (r: i16)
        ensures
            r == level_of(self.deep_view().finalized, name@),
    {
        find_level(&self.finalized, name)
    }

    /// The features, at their present levels.
    pub fn features(&self) -> (r: FeatureMetadata)
        ensures
            r.deep_view() == self.deep_view(),
    {
        self.duplicate()
    }
}

impl Default for FeatureMetadata {
    fn default() -> (r: Self)
        ensures
            r.deep_view() == (FeatureMetadataView { epoch: 0, finalized: default_levels() }),
    {
        let mut finalized: SortedMap<String, i16> = SortedMap::new();
        finalized.insert(METADATA_VERSION_FEATURE.to_owned(), KAFKA_4_2_IV1);
        finalized.insert(TRANSACTION_VERSION_FEATURE.to_owned(), TRANSACTION_VERSION_2);
        finalized.insert(GROUP_VERSION_FEATURE.to_owned(), CONSUMER_GROUP_VERSION);
        finalized.insert(SHARE_VERSION_FEATURE.to_owned(), SHARE_GROUP_VERSION);
        finalized.insert(STREAMS_VERSION_FEATURE.to_owned(), STREAMS_GROUP_VERSION);
        assert(finalized.deep_view() =~= default_levels());
        FeatureMetadata { epoch: 0, finalized }
    }
}

/// What a change of level may do.
#[derive(Clone, Copy, Debug, PartialEq, Eq, Structural)]
pub enum FeatureUpgradeType {
    Upgrade,
    SafeDowngrade,
    UnsafeDowngrade,
}

impl DeepView for FeatureUpgradeType {
    type V = FeatureUpgradeType;

    open spec fn deep_view(&self) -> FeatureUpgradeType {
        *self
    }
}

impl Duplicate for FeatureUpgradeType {
    fn duplicate(&self) -> (r: Self) {
        *self
    }
}

/// The level that a feature is to run at from now on; zero turns it off.
#[derive(Debug, Clone, PartialEq, Eq)]
pub struct FeatureLevelUpdate {
    pub name: String,
    pub max_version_level: i16,
    pub upgrade_type: FeatureUpgradeType,
}

/// The model of [`FeatureLevelUpdate`].
pub struct FeatureLevelUpdateView {
    pub name: Seq<char>,
    pub max_version_level: i16,
    pub upgrade_type: FeatureUpgradeType,
}

impl DeepView for FeatureLevelUpdate {
    type V = FeatureLevelUpdateView;

    open spec fn deep_view(&self) -> FeatureLevelUpdateView {
        FeatureLevelUpdateView {
            name: self.name@,
            max_version_level: self.max_version_level,
            upgrade_type: self.upgrade_type,
        }
    }
}

impl Duplicate for FeatureLevelUpdate {
    fn duplicate(&self) -> (r: Self) {
        FeatureLevelUpdate {
            name: self.name.clone(),
            max_version_level: self.max_version_level,
            upgrade_type: self.upgrade_type,
        }
    }
}

/// The levels after a list of updates.
pub open spec fn proposed(levels: Map<Seq<char>, i16>, updates: Seq<FeatureLevelUpdateView>) -> Map<Seq<char>, i16>
    decreases updates.len(),
{
    if updates.len() == 0 {
        levels
    } else {
        let update = updates.last();
        let before = proposed(levels, updates.drop_last());
        if update.max_version_level == 0 {
            before.remove(update.name)
        } else {
            before.insert(update.name, update.max_version_level)
        }
    }
}

/// Whether an update of a list is for a feature.
pub open spec fn is_updated(updates: Seq<FeatureLevelUpdateView>, name: Seq<char>) -> bool {
    exists|i: int| 0 <= i < updates.len() && (#[trigger] updates[i]).name == name
}

/// The first update that names no feature, or one that an earlier update names.
pub open spec fn names_verdict(updates: Seq<FeatureLevelUpdateView>) -> Result<(), ControlErrorView>
    decreases updates.len(),
{
    if updates.len() == 0 {
        Ok(())
    } else {
        match names_verdict(updates.drop_last()) {
            Err(refusal) => Err(refusal),
            Ok(_) => if updates.last().name.len() == 0 {
                Err(ControlErrorView::InvalidUpdateVersion("feature name must not be empty"@))
            } else if is_updated(updates.drop_last(), updates.last().name) {
                Err(ControlErrorView::InvalidRequest("feature "@ + updates.last().name + " appears more than once"@))
            } else {
                Ok(())
            },
        }
    }
}

/// The refusal of a level.
pub open spec fn version_refused(update: FeatureLevelUpdateView, reason: Seq<char>) -> ControlErrorView {
    ControlErrorView::InvalidUpdateVersion(
        "invalid update version "@ + text::decimal_text(update.max_version_level as int) + " for feature "@ + update.name + ": "@ + reason,
    )
}

/// Whether metadata is lost on the way from one metadata version to another.
pub open spec fn loses_metadata(from: i16, to: i16) -> bool {
    (from >= KAFKA_4_0_IV1 && to < KAFKA_4_0_IV1) || (from >= KAFKA_4_3_IV0 && to < KAFKA_4_3_IV0)
}

/// Whether a feature runs that needs metadata of a certain age, and the metadata is older.
pub open spec fn lacks_metadata(levels: Map<Seq<char>, i16>) -> bool {
    &&& level_of(levels, TRANSACTION_VERSION_FEATURE@) > 0 || level_of(levels, GROUP_VERSION_FEATURE@) > 0 || level_of(
        levels,
        SHARE_VERSION_FEATURE@,
    ) > 0 || level_of(levels, STREAMS_VERSION_FEATURE@) > 0
    &&& level_of(levels, METADATA_VERSION_FEATURE@) < KAFKA_4_0_IV0
}

/// Whether an update may be made, given the levels before and after all updates of the request.
pub open spec fn update_verdict(
    before: Map<Seq<char>, i16>,
    after: Map<Seq<char>, i16>,
    update: FeatureLevelUpdateView,
) -> Result<(), ControlErrorView> {
    let old_level = level_of(before, update.name);
    let new_level = update.max_version_level;
    match supported_range(update.name) {
        None => Err(version_refused(update, "the feature is not supported"@)),
        Some(range) => if new_level < range.0 || new_level > range.1 {
            Err(
                version_refused(
                    update,
                    "supported versions are "@ + text::decimal_text(range.0) + "-"@ + text::decimal_text(range.1),
                ),
            )
        } else if new_level < old_level && update.upgrade_type == FeatureUpgradeType::Upgrade {
            Err(version_refused(update, "a downgrade requires a safe or unsafe downgrade type"@))
        } else if new_level > old_level && update.upgrade_type != FeatureUpgradeType::Upgrade {
            Err(version_refused(update, "a downgrade type cannot be used to select a newer version"@))
        } else if update.name == METADATA_VERSION_FEATURE@ && loses_metadata(old_level, new_level) {
            Err(
                version_refused(
                    update,
                    if update.upgrade_type == FeatureUpgradeType::UnsafeDowngrade {
                        "unsafe metadata downgrade is not supported"@
                    } else {
                        "the downgrade may delete metadata information"@
                    },
                ),
            )
        } else if lacks_metadata(after) {
            Err(version_refused(update, "nonzero production features require metadata.version>=22"@))
        } else {
            Ok(())
        },
    }
}

/// The verdict on the first update of a list that may not be made.
pub open spec fn updates_verdict(
    before: Map<Seq<char>, i16>,
    after: Map<Seq<char>, i16>,
    updates: Seq<FeatureLevelUpdateView>,
) -> Result<(), ControlErrorView>
    decreases updates.len(),
{
    if updates.len() == 0 {
        Ok(())
    } else {
        match updates_verdict(before, after, updates.drop_last()) {
            Err(refusal) => Err(refusal),
            Ok(_) => update_verdict(before, after, updates.last()),
        }
    }
}

/// The levels after all updates of a request, or the reason for which none is made.
pub open spec fn updates_applied(
    levels: Map<Seq<char>, i16>,
    updates: Seq<FeatureLevelUpdateView>,
) -> Result<Map<Seq<char>, i16>, ControlErrorView> {
    match names_verdict(updates) {
        Err(refusal) => Err(refusal),
        Ok(_) => match updates_verdict(levels, proposed(levels, updates), updates) {
            Err(refusal) => Err(refusal),
            Ok(_) => Ok(proposed(levels, updates)),
        },
    }
}

/// What a request to update features does.
pub open spec fn features_updated(
    features: FeatureMetadataView,
    updates: Seq<FeatureLevelUpdateView>,
    validate_only: bool,
) -> (FeatureMetadataView, Result<FeatureMetadataView, ControlErrorView>) {
    match updates_applied(features.finalized, updates) {
        Err(refusal) => (features, Err(refusal)),
        Ok(levels) => {
            let after = if !validate_only && levels != features.finalized {
                FeatureMetadataView { epoch: (features.epoch + 1) as i64, finalized: levels }
            } else {
                features
            };
            (after, Ok(after))
        },
    }
}

fn invalid_version(update: &FeatureLevelUpdate, reason: &str) -> (r: ControlError)
    ensures
        r.deep_view() == version_refused(update.deep_view(), reason@),
{
    let mut message = "invalid update version ".to_owned();
    append_decimal(&mut message, update.max_version_level as i64);
    message.append(" for feature ");
    message.append(update.name.as_str());
    message.append(": ");
    message.append(reason);
    ControlError::InvalidUpdateVersion(message)
}

fn validate_update(
    current: &SortedMap<String, i16>,
    proposed: &SortedMap<String, i16>,
    update: &FeatureLevelUpdate,
) -> (r: Result<(), ControlError>)
    ensures
        error::outcome(r) == update_verdict(current.deep_view(), proposed.deep_view(), update.deep_view()),
{
    let supported = match find_supported(update.name.as_str()) {
        Some(supported) => supported,
        None => return Err(invalid_version(update, "the feature is not supported")),
    };
    let new_version: i16 = update.max_version_level;
    if new_version < supported.min_version || new_version > supported.max_version {
        let mut reason = "supported versions are ".to_owned();
        append_decimal(&mut reason, supported.min_version as i64);
        reason.append("-");
        append_decimal(&mut reason, supported.max_version as i64);
        return Err(invalid_version(update, reason.as_str()));
    }
    let current_version: i16 = find_level(current, update.name.as_str());
    if new_version < current_version && update.upgrade_type == FeatureUpgradeType::Upgrade {
        return Err(invalid_version(update, "a downgrade requires a safe or unsafe downgrade type"));
    }
    if new_version > current_version && update.upgrade_type != FeatureUpgradeType::Upgrade {
        return Err(invalid_version(update, "a downgrade type cannot be used to select a newer version"));
    }
    let crosses_metadata_change = (current_version >= KAFKA_4_0_IV1 && new_version < KAFKA_4_0_IV1) || (current_version >= KAFKA_4_3_IV0
        && new_version < KAFKA_4_3_IV0);
    if same_text(update.name.as_str(), METADATA_VERSION_FEATURE) && crosses_metadata_change {
        let reason = if update.upgrade_type == FeatureUpgradeType::UnsafeDowngrade {
            "unsafe metadata downgrade is not supported"
        } else {
            "the downgrade may delete metadata information"
        };
        return Err(invalid_version(update, reason));
    }
    if (find_level(proposed, TRANSACTION_VERSION_FEATURE) > 0 || find_level(proposed, GROUP_VERSION_FEATURE) > 0 || find_level(
        proposed,
        SHARE_VERSION_FEATURE,
    ) > 0 || find_level(proposed, STREAMS_VERSION_FEATURE) > 0) && find_level(proposed, METADATA_VERSION_FEATURE) < KAFKA_4_0_IV0 {
        return Err(invalid_version(update, "nonzero production features require metadata.version>=22"));
    }
    Ok(())
}

/// The levels after a list of updates, all of them or none.
pub fn apply_updates(current: &SortedMap<String, i16>, updates: &[FeatureLevelUpdate]) -> (r: Result<SortedMap<String, i16>, ControlError>)
    ensures
        error::outcome(r) == updates_applied(current.deep_view(), sorted_map::models(updates@)),
{
    let ghost before = current.deep_view();
    let ghost all = sorted_map::models(updates@);
    let mut after = current.duplicate();
    let mut names: SortedMap<String, ()> = SortedMap::new();
    let mut i: usize = 0;
    assert(all.take(0) =~= Seq::empty());
    while i < updates.len()
        invariant
            i <= updates@.len(),
            all == sorted_map::models(updates@),
            after.deep_view() == proposed(before, all.take(i as int)),
            names_verdict(all.take(i as int)) is Ok,
            forall|name: Seq<char>| #[trigger] names.deep_view().contains_key(name) <==> is_updated(all.take(i as int), name),
        decreases updates@.len() - i,
    {
        let update = &updates[i];
        proof {
            assert(all[i as int] == update.deep_view());
            sorted_map::prefix_grows(all, i as int);
            assert(all.take(i + 1).last() == update.deep_view());
        }
        if update.name.as_str().is_empty() {
            proof {
                refused_names_stay(all, i + 1);
            }
            return Err(ControlError::InvalidUpdateVersion("feature name must not be empty".to_owned()));
        }
        if names.contains_key(&update.name) {
            proof {
                refused_names_stay(all, i + 1);
            }
            return Err(
                ControlError::InvalidRequest(join_three("feature ", update.name.as_str(), " appears more than once")),
            );
        }
        proof {
            assert forall|name: Seq<char>|
                is_updated(all.take(i + 1), name) <==> is_updated(all.take(i as int), name) || name == update.name@ by {
                let longer = all.take(i + 1);
                let shorter = all.take(i as int);
                if is_updated(shorter, name) {
                    let j = choose|j: int| 0 <= j < shorter.len() && (#[trigger] shorter[j]).name == name;
                    assert(longer[j].name == name);
                }
                if name == update.name@ {
                    assert(longer[i as int].name == name);
                }
                if is_updated(longer, name) {
                    let j = choose|j: int| 0 <= j < longer.len() && (#[trigger] longer[j]).name == name;
                    if j < i {
                        assert(shorter[j].name == name);
                    }
                }
            }
        }
        names.insert(update.name.clone(), ());
        if update.max_version_level == 0 {
            after.remove(&update.name);
        } else {
            after.insert(update.name.clone(), update.max_version_level);
        }
        i = i + 1;
    }
    assert(all.take(i as int) =~= all);
    let mut n: usize = 0;
    assert(all.take(0) =~= Seq::empty());
    while n < updates.len()
        invariant
            n <= updates@.len(),
            before == current.deep_view(),
            all == sorted_map::models(updates@),
            names_verdict(all) is Ok,
            after.deep_view() == proposed(before, all),
            updates_verdict(before, after.deep_view(), all.take(n as int)) is Ok,
        decreases updates@.len() - n,
    {
        proof {
            assert(all[n as int] == updates@[n as int].deep_view());
            sorted_map::prefix_grows(all, n as int);
        }
        match validate_update(current, &after, &updates[n]) {
            Ok(_) => {},
            Err(refusal) => {
                proof {
                    refused_updates_stay(before, after.deep_view(), all, n + 1);
                }
                return Err(refusal);
            },
        }
        n = n + 1;
    }
    assert(all.take(n as int) =~= all);
    Ok(after)
}

proof fn refused_names_stay(updates: Seq<FeatureLevelUpdateView>, n: int)
    requires
        0 <= n <= updates.len(),
        names_verdict(updates.take(n)) is Err,
    ensures
        names_verdict(updates) == names_verdict(updates.take(n)),
    decreases updates.len() - n,
{
    if n < updates.len() {
        sorted_map::prefix_grows(updates, n);
        refused_names_stay(updates, n + 1);
    } else {
        assert(updates.take(n) =~= updates);
    }
}

proof fn refused_updates_stay(
    before: Map<Seq<char>, i16>,
    after: Map<Seq<char>, i16>,
    updates: Seq<FeatureLevelUpdateView>,
    n: int,
)
    requires
        0 <= n <= updates.len(),
        updates_verdict(before, after, updates.take(n)) is Err,
    ensures
        updates_verdict(before, after, updates) == updates_verdict(before, after, updates.take(n)),
    decreases updates.len() - n,
{
    if n < updates.len() {
        sorted_map::prefix_grows(updates, n);
        refused_updates_stay(before, after, updates, n + 1);
    } else {
        assert(updates.take(n) =~= updates);
    }
}

fn covers(wider: &SortedMap<String, i16>, levels: &SortedMap<String, i16>) -> (r: bool)
    ensures
        r == levels.deep_view().submap_of(wider.deep_view()),
{
    let names = levels.keys();
    let ghost all = names.deep_view();
    let mut i: usize = 0;
    while i < names.len()
        invariant
            i <= names@.len(),
            all == names.deep_view(),
            all.to_set() == levels.deep_view().dom(),
            forall|j: int|
                0 <= j < i ==> wider.deep_view().contains_key(#[trigger] all[j]) && wider.deep_view()[all[j]] == levels.deep_view()[all[j]],
        decreases names@.len() - i,
    {
        assert(all[i as int] == names@[i as int].deep_view());
        assert(all.to_set().contains(all[i as int]));
        match wider.get(&names[i]) {
            None => return false,
            Some(level) => {
                if *level != *levels.get(&names[i]).unwrap() {
                    return false;
                }
            },
        }
        i = i + 1;
    }
    assert forall|name: Seq<char>| #[trigger] levels.deep_view().contains_key(name) implies wider.deep_view().contains_key(name)
        && wider.deep_view()[name] == levels.deep_view()[name] by {
        assert(all.to_set().contains(name));
        let j = choose|j: int| 0 <= j < all.len() && all[j] == name;
        assert(all[j] == name);
    }
    true
}

impl FeatureMetadata {
    /// Updates the levels of features, or only says whether that could be done.
    pub fn update_features(&mut self, updates: &[FeatureLevelUpdate], validate_only: bool) -> (r: Result<FeatureMetadata, ControlError>)
        requires
            old(self).epoch < i64::MAX,
        ensures
            (final(self).deep_view(), error::outcome(r)) == features_updated(
                old(self).deep_view(),
                sorted_map::models(updates@),
                validate_only,
            ),
    {
        let levels = apply_updates(&self.finalized, updates)?;
        let same = covers(&levels, &self.finalized) && covers(&self.finalized, &levels);
        proof {
            let a = levels.deep_view();
            let b = self.finalized.deep_view();
            if same {
                assert forall|name: Seq<char>| #[trigger] a.dom().contains(name) <==> b.dom().contains(name) by {
                    assert(a.dom().contains(name) ==> b.dom().contains(name));
                }
                assert(a.dom() =~= b.dom());
                assert(a =~= b);
            }
        }
        if !validate_only && !same {
            self.finalized = levels;
            self.epoch = self.epoch + 1;
        }
        Ok(self.duplicate())
    }
}

/// What an accepted list of updates leaves alone: a feature that no update names keeps its level,
/// and one that an update names runs at the level asked for.
pub proof fn updates_set_levels(levels: Map<Seq<char>, i16>, updates: Seq<FeatureLevelUpdateView>, name: Seq<char>)
    requires
        names_verdict(updates) is Ok,
    ensures
        !is_updated(updates, name) ==> level_of(proposed(levels, updates), name) == level_of(levels, name),
        forall|i: int| 0 <= i < updates.len() && (#[trigger] updates[i]).name == name
            ==> level_of(proposed(levels, updates), name) == updates[i].max_version_level,
    decreases updates.len(),
{
    if updates.len() > 0 {
        let rest = updates.drop_last();
        updates_set_levels(levels, rest, name);
        if updates.last().name == name {
            assert(updates[updates.len() - 1].name == name);
            assert forall|i: int| 0 <= i < updates.len() && (#[trigger] updates[i]).name == name implies i == updates.len() - 1 by {
                if i < updates.len() - 1 {
                    assert(rest[i].name == name);
                }
            }
        } else {
            if is_updated(rest, name) {
                let j = choose|j: int| 0 <= j < rest.len() && (#[trigger] rest[j]).name == name;
                assert(updates[j].name == name);
            }
            assert forall|i: int| 0 <= i < updates.len() && (#[trigger] updates[i]).name == name implies level_of(
                proposed(levels, updates),
                name,
            ) == updates[i].max_version_level by {
                assert(rest[i].name == name);
            }
        }
    }
}

proof fn every_update_passed(before: Map<Seq<char>, i16>, after: Map<Seq<char>, i16>, updates: Seq<FeatureLevelUpdateView>, i: int)
    requires
        0 <= i < updates.len(),
        updates_verdict(before, after, updates) is Ok,
    ensures
        update_verdict(before, after, updates[i]) is Ok,
    decreases updates.len(),
{
    if i < updates.len() - 1 {
        every_update_passed(before, after, updates.drop_last(), i);
        assert(updates.drop_last()[i] == updates[i]);
    }
}

/// An accepted request never takes the metadata version down past a change that would lose metadata.
pub proof fn metadata_is_never_lost(features: FeatureMetadataView, updates: Seq<FeatureLevelUpdateView>, validate_only: bool)
    ensures
        !loses_metadata(
            level_of(features.finalized, METADATA_VERSION_FEATURE@),
            level_of(features_updated(features, updates, validate_only).0.finalized, METADATA_VERSION_FEATURE@),
        ),
{
    let name = METADATA_VERSION_FEATURE@;
    let levels = features.finalized;
    if updates_applied(levels, updates) is Ok {
        updates_set_levels(levels, updates, name);
        if is_updated(updates, name) {
            let i = choose|i: int| 0 <= i < updates.len() && (#[trigger] updates[i]).name == name;
            every_update_passed(levels, proposed(levels, updates), updates, i);
            assert(updates[i].name == name);
        }
    }
}

/// Every feature runs at a level that this broker can run, or not at all.
pub open spec fn runnable(levels: Map<Seq<char>, i16>) -> bool {
    forall|name: Seq<char>|
        #[trigger] level_of(levels, name) == 0 || (supported_range(name) is Some && (supported_range(name)->0).0 <= level_of(levels, name) <= (
        supported_range(name)->0).1)
}

/// Updates keep every feature at a level that this broker can run.
pub proof fn updates_keep_levels_runnable(features: FeatureMetadataView, updates: Seq<FeatureLevelUpdateView>, validate_only: bool)
    requires
        runnable(features.finalized),
    ensures
        runnable(features_updated(features, updates, validate_only).0.finalized),
{
    let levels = features.finalized;
    let after = features_updated(features, updates, validate_only).0.finalized;
    assert forall|name: Seq<char>| #[trigger] level_of(after, name) == 0 || (supported_range(name) is Some && (supported_range(name)->0).0
        <= level_of(after, name) <= (supported_range(name)->0).1) by {
        assert(level_of(levels, name) == level_of(levels, name));
        if updates_applied(levels, updates) is Ok {
            updates_set_levels(levels, updates, name);
            if is_updated(updates, name) {
                let i = choose|i: int| 0 <= i < updates.len() && (#[trigger] updates[i]).name == name;
                every_update_passed(levels, proposed(levels, updates), updates, i);
                assert(updates[i].name == name);
            }
        }
    }
}

/// A request that is refused, or that only asks, changes nothing; one that changes a level makes
/// the epoch one greater.
pub proof fn updates_are_atomic(features: FeatureMetadataView, updates: Seq<FeatureLevelUpdateView>, validate_only: bool)
    requires
        features.epoch < i64::MAX,
    ensures
        ({
            let (after, r) = features_updated(features, updates, validate_only);
            &&& r is Err || validate_only ==> after == features
            &&& after.finalized != features.finalized ==> after.epoch == features.epoch + 1
            &&& after.finalized == features.finalized ==> after.epoch == features.epoch
        }),
{
}

/// Whether every update of a list names a feature, and no two the same one.
pub open spec fn are_distinct(updates: Seq<FeatureLevelUpdateView>) -> bool {
    &&& forall|i: int| 0 <= i < updates.len() ==> (#[trigger] updates[i]).name.len() > 0
    &&& forall|i: int, j: int| 0 <= i < j < updates.len() ==> (#[trigger] updates[i]).name != (#[trigger] updates[j]).name
}

proof fn accepted_are_distinct(updates: Seq<FeatureLevelUpdateView>)
    ensures
        names_verdict(updates) is Ok <==> are_distinct(updates),
    decreases updates.len(),
{
    if updates.len() > 0 {
        let rest = updates.drop_last();
        let last = updates.len() - 1;
        accepted_are_distinct(rest);
        if are_distinct(updates) {
            assert forall|i: int| 0 <= i < rest.len() implies (#[trigger] rest[i]).name.len() > 0 by {
                assert(rest[i] == updates[i]);
            }
            assert forall|i: int, j: int| 0 <= i < j < rest.len() implies (#[trigger] rest[i]).name != (#[trigger] rest[j]).name by {
                assert(rest[i] == updates[i] && rest[j] == updates[j]);
            }
            if is_updated(rest, updates.last().name) {
                let i = choose|i: int| 0 <= i < rest.len() && (#[trigger] rest[i]).name == updates.last().name;
                assert(updates[i].name == updates[last].name);
            }
            assert(updates[last].name.len() > 0);
        }
        if names_verdict(updates) is Ok {
            assert forall|i: int| 0 <= i < updates.len() implies (#[trigger] updates[i]).name.len() > 0 by {
                if i < last {
                    assert(rest[i] == updates[i]);
                }
            }
            assert forall|i: int, j: int| 0 <= i < j < updates.len() implies (#[trigger] updates[i]).name != (#[trigger] updates[j]).name by {
                assert(rest[i] == updates[i]);
                if j < last {
                    assert(rest[j] == updates[j]);
                }
            }
        }
    }
}

proof fn proposed_levels(levels: Map<Seq<char>, i16>, updates: Seq<FeatureLevelUpdateView>, name: Seq<char>)
    requires
        are_distinct(updates),
    ensures
        !is_updated(updates, name) ==> proposed(levels, updates).contains_key(name) == levels.contains_key(name),
        !is_updated(updates, name) && levels.contains_key(name) ==> proposed(levels, updates)[name] == levels[name],
        forall|i: int|
            0 <= i < updates.len() && (#[trigger] updates[i]).name == name ==> proposed(levels, updates).contains_key(name) == (
            updates[i].max_version_level != 0),
        forall|i: int|
            0 <= i < updates.len() && (#[trigger] updates[i]).name == name && updates[i].max_version_level != 0 ==> proposed(
                levels,
                updates,
            )[name] == updates[i].max_version_level,
    decreases updates.len(),
{
    if updates.len() > 0 {
        let rest = updates.drop_last();
        assert forall|i: int| 0 <= i < rest.len() implies (#[trigger] rest[i]) == updates[i] by {}
        assert forall|i: int| 0 <= i < rest.len() implies (#[trigger] rest[i]).name.len() > 0 by {
            assert(updates[i].name.len() > 0);
        }
        assert forall|i: int, j: int| 0 <= i < j < rest.len() implies (#[trigger] rest[i]).name != (#[trigger] rest[j]).name by {
            assert(updates[i].name != updates[j].name);
        }
        proposed_levels(levels, rest, name);
        let last = updates.len() - 1;
        assert(updates[last] == updates.last());
        if updates.last().name != name {
            if is_updated(rest, name) {
                let i = choose|i: int| 0 <= i < rest.len() && (#[trigger] rest[i]).name == name;
                assert(updates[i].name == name);
            }
            assert forall|i: int| 0 <= i < updates.len() && (#[trigger] updates[i]).name == name implies i < last && rest[i].name == name by {}
        } else {
            assert forall|i: int| 0 <= i < updates.len() && (#[trigger] updates[i]).name == name implies i == last by {
                if i < last {
                    assert(updates[i].name != updates[last].name);
                }
            }
        }
    }
}

proof fn updates_pass_one_by_one(before: Map<Seq<char>, i16>, after: Map<Seq<char>, i16>, updates: Seq<FeatureLevelUpdateView>)
    requires
        forall|i: int| 0 <= i < updates.len() ==> update_verdict(before, after, #[trigger] updates[i]) is Ok,
    ensures
        updates_verdict(before, after, updates) is Ok,
    decreases updates.len(),
{
    if updates.len() > 0 {
        let rest = updates.drop_last();
        assert forall|i: int| 0 <= i < rest.len() implies update_verdict(before, after, #[trigger] rest[i]) is Ok by {
            assert(rest[i] == updates[i]);
        }
        updates_pass_one_by_one(before, after, rest);
        assert(updates[updates.len() - 1] == updates.last());
    }
}

proof fn distinct_in_any_order(a: Seq<FeatureLevelUpdateView>, b: Seq<FeatureLevelUpdateView>)
    requires
        a.to_multiset() == b.to_multiset(),
        are_distinct(a),
    ensures
        are_distinct(b),
        forall|i: int| 0 <= i < b.len() ==> a.contains(#[trigger] b[i]),
{
    broadcast use vstd::seq_lib::group_to_multiset_ensures;

    assert forall|i: int| 0 <= i < b.len() implies a.contains(#[trigger] b[i]) by {
        assert(b.contains(b[i]));
        assert(b.to_multiset().count(b[i]) > 0);
    }
    assert(a.no_duplicates()) by {
        assert forall|i: int, j: int| 0 <= i < a.len() && 0 <= j < a.len() && i != j implies a[i] != a[j] by {
            if i < j {
                assert(a[i].name != a[j].name);
            } else {
                assert(a[j].name != a[i].name);
            }
        }
    }
    a.lemma_multiset_has_no_duplicates();
    b.lemma_multiset_has_no_duplicates_conv();
    assert forall|i: int| 0 <= i < b.len() implies (#[trigger] b[i]).name.len() > 0 by {
        let x = choose|x: int| 0 <= x < a.len() && a[x] == b[i];
        assert(a[x].name.len() > 0);
    }
    assert forall|i: int, j: int| 0 <= i < j < b.len() implies (#[trigger] b[i]).name != (#[trigger] b[j]).name by {
        assert(a.contains(b[i]) && a.contains(b[j]));
        let x = choose|x: int| 0 <= x < a.len() && a[x] == b[i];
        let y = choose|y: int| 0 <= y < a.len() && a[y] == b[j];
        assert(b[i] != b[j]);
        if x < y {
            assert(a[x].name != a[y].name);
        } else {
            assert(a[y].name != a[x].name);
        }
    }
}

proof fn accepted_in_any_order(levels: Map<Seq<char>, i16>, a: Seq<FeatureLevelUpdateView>, b: Seq<FeatureLevelUpdateView>)
    requires
        a.to_multiset() == b.to_multiset(),
        updates_applied(levels, a) is Ok,
    ensures
        updates_applied(levels, b) == updates_applied(levels, a),
{
    accepted_are_distinct(a);
    distinct_in_any_order(a, b);
    distinct_in_any_order(b, a);
    accepted_are_distinct(b);
    let x = proposed(levels, a);
    let y = proposed(levels, b);
    assert forall|name: Seq<char>| #[trigger] x.dom().contains(name) == y.dom().contains(name) && (x.dom().contains(name) ==> x[name]
        == y[name]) by {
        proposed_levels(levels, a, name);
        proposed_levels(levels, b, name);
        if is_updated(a, name) {
            let i = choose|i: int| 0 <= i < a.len() && (#[trigger] a[i]).name == name;
            assert(b.contains(a[i]));
            let j = choose|j: int| 0 <= j < b.len() && b[j] == a[i];
            assert(b[j].name == name);
        } else if is_updated(b, name) {
            let j = choose|j: int| 0 <= j < b.len() && (#[trigger] b[j]).name == name;
            assert(a.contains(b[j]));
            let i = choose|i: int| 0 <= i < a.len() && a[i] == b[j];
            assert(a[i].name == name);
        }
    }
    assert(x.dom() =~= y.dom());
    assert(x =~= y);
    assert forall|j: int| 0 <= j < b.len() implies update_verdict(levels, y, #[trigger] b[j]) is Ok by {
        assert(a.contains(b[j]));
        let i = choose|i: int| 0 <= i < a.len() && a[i] == b[j];
        every_update_passed(levels, x, a, i);
    }
    updates_pass_one_by_one(levels, y, b);
}

/// The order of the updates of a request does not matter: it is accepted in one order if and only if it
/// is accepted in any other, and does the same.
pub proof fn order_of_updates_does_not_matter(
    features: FeatureMetadataView,
    a: Seq<FeatureLevelUpdateView>,
    b: Seq<FeatureLevelUpdateView>,
    validate_only: bool,
)
    requires
        a.to_multiset() == b.to_multiset(),
    ensures
        features_updated(features, a, validate_only).0 == features_updated(features, b, validate_only).0,
        features_updated(features, a, validate_only).1 is Ok <==> features_updated(features, b, validate_only).1 is Ok,
        features_updated(features, a, validate_only).1 is Ok ==> features_updated(features, a, validate_only) == features_updated(
            features,
            b,
            validate_only,
        ),
{
    if updates_applied(features.finalized, a) is Ok {
        accepted_in_any_order(features.finalized, a, b);
    }
    if updates_applied(features.finalized, b) is Ok {
        accepted_in_any_order(features.finalized, b, a);
    }
}

/// An accepted request that is made once more is accepted, and changes nothing.
pub proof fn repeated_updates_change_nothing(features: FeatureMetadataView, updates: Seq<FeatureLevelUpdateView>, validate_only: bool)
    requires
        features_updated(features, updates, false).1 is Ok,
    ensures
        ({
            let after = features_updated(features, updates, false).0;
            features_updated(after, updates, validate_only) == (after, Ok::<FeatureMetadataView, ControlErrorView>(after))
        }),
{
    let levels = features.finalized;
    let once = proposed(levels, updates);
    let twice = proposed(once, updates);
    accepted_are_distinct(updates);
    assert forall|name: Seq<char>| #[trigger] once.dom().contains(name) == twice.dom().contains(name) && (once.dom().contains(name)
        ==> once[name] == twice[name]) by {
        proposed_levels(levels, updates, name);
        proposed_levels(once, updates, name);
        if is_updated(updates, name) {
            let i = choose|i: int| 0 <= i < updates.len() && (#[trigger] updates[i]).name == name;
            assert(updates[i].name == name);
        }
    }
    assert(once.dom() =~= twice.dom());
    assert(once =~= twice);
    assert forall|i: int| 0 <= i < updates.len() implies update_verdict(once, once, #[trigger] updates[i]) is Ok by {
        every_update_passed(levels, once, updates, i);
        updates_set_levels(levels, updates, updates[i].name);
    }
    updates_pass_one_by_one(once, once, updates);
}

} // verus!
