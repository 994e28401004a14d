//! Named settings of groups and of brokers.

use crate::sorted_map;
use crate::sorted_map::{Duplicate, SortedMap};
use vstd::prelude::*;

verus! {

/// Settings after changes: a change to a value sets it, a change to nothing removes it.
pub open spec fn changed<V>(settings: Map<Seq<char>, V>, changes: Map<Seq<char>, Option<V>>) -> Map<Seq<char>, V> {
    Map::new(
        |key: Seq<char>|
            if changes.contains_key(key) {
                changes[key] is Some
            } else {
                settings.contains_key(key)
            },
        |key: Seq<char>|
            if changes.contains_key(key) {
                changes[key]->0
            } else {
                settings[key]
            },
    )
}

/// Makes changes to settings.
pub fn apply_changes<V: Duplicate>(settings: &mut SortedMap<String, V>, changes: &SortedMap<String, Option<V>>)
    ensures
        final(settings).deep_view() == changed(old(settings).deep_view(), changes.deep_view()),
{
    let ghost before = settings.deep_view();
    let ghost wanted = changes.deep_view();
    let keys = changes.keys();
    let ghost all = keys.deep_view();
    let mut i: usize = 0;
    assert(all.take(0) =~= Seq::empty());
    assert(before =~= changed(before, wanted.restrict(all.take(0).to_set())));
    while i < keys.len()
        invariant
            i <= keys@.len(),
            all == keys.deep_view(),
            wanted == changes.deep_view(),
            all.to_set() == wanted.dom(),
            settings.deep_view() == changed(before, wanted.restrict(all.take(i as int).to_set())),
        decreases keys@.len() - i,
    {
        let ghost at = all[i as int];
        proof {
            assert(at == keys@[i as int].deep_view());
            assert(all.to_set().contains(at));
            sorted_map::prefix_grows(all, i as int);
        }
        let change = changes.get(&keys[i]).unwrap();
        assert(change.deep_view() == wanted[at]);
        match change {
            Some(value) => {
                settings.insert(keys[i].clone(), value.duplicate());
            },
            None => {
                settings.remove(&keys[i]);
            },
        }
        i = i + 1;
        assert(settings.deep_view() =~= changed(before, wanted.restrict(all.take(i as int).to_set())));
    }
    assert(all.take(i as int) =~= all);
    assert(wanted.restrict(all.to_set()) =~= wanted);
}

/// The settings of the groups, and those that all brokers share. A group without settings is not
/// listed.
pub struct Configs {
    pub group_configs: SortedMap<String, SortedMap<String, String>>,
    pub broker_configs: SortedMap<String, String>,
}

/// The model of [`Configs`].
pub struct ConfigsView {
    pub group_configs: Map<Seq<char>, Map<Seq<char>, Seq<char>>>,
    pub broker_configs: Map<Seq<char>, Seq<char>>,
}

impl DeepView for Configs {
    type V = ConfigsView;

    open spec fn deep_view(&self) -> ConfigsView {
        ConfigsView { group_configs: self.group_configs.deep_view(), broker_configs: self.broker_configs.deep_view() }
    }
}

/// The settings of a group.
pub open spec fn group_settings(configs: ConfigsView, group: Seq<char>) -> Map<Seq<char>, Seq<char>> {
    if configs.group_configs.contains_key(group) {
        configs.group_configs[group]
    } else {
        Map::empty()
    }
}

/// The settings after changes to those of a group.
pub open spec fn group_altered(
    configs: ConfigsView,
    group: Seq<char>,
    changes: Map<Seq<char>, Option<Seq<char>>>,
    validate_only: bool,
) -> ConfigsView {
    let settings = changed(group_settings(configs, group), changes);
    if validate_only {
        configs
    } else if settings == Map::<Seq<char>, Seq<char>>::empty() {
        ConfigsView { group_configs: configs.group_configs.remove(group), ..configs }
    } else {
        ConfigsView { group_configs: configs.group_configs.insert(group, settings), ..configs }
    }
}

/// The settings after changes to those of the brokers.
pub open spec fn broker_altered(configs: ConfigsView, changes: Map<Seq<char>, Option<Seq<char>>>, validate_only: bool) -> ConfigsView {
    if validate_only {
        configs
    } else {
        ConfigsView { broker_configs: changed(configs.broker_configs, changes), ..configs }
    }
}

impl Configs {
    pub fn new() -> (r: Self)
        ensures
            r.deep_view() == (ConfigsView { group_configs: Map::empty(), broker_configs: Map::empty() }),
    {
        Configs { group_configs: SortedMap::new(), broker_configs: SortedMap::new() }
    }

    /// The settings of a group.
    pub fn group_config(&self, group_id: &str) -> (r: SortedMap<String, String>)
        ensures
            r.deep_view() == group_settings(self.deep_view(), group_id@),
    {
        match self.group_configs.get(&group_id.to_owned()) {
            Some(settings) => settings.duplicate(),
            None => SortedMap::new(),
        }
    }

    /// The groups that have settings, in order.
    pub fn group_config_ids(&self) -> (r: Vec<String>)
        ensures
            r.deep_view() == sorted_map::sorted_keys::<String>(self.deep_view().group_configs.dom()),
    {
        let r = self.group_configs.keys();
        proof {
            sorted_map::sorted_keys_are::<String>(r.deep_view(), self.group_configs.deep_view().dom());
        }
        r
    }

    /// Changes the settings of a group, unless the request only asks whether it could.
    pub fn alter_group_config(&mut self, group_id: &str, changes: &SortedMap<String, Option<String>>, validate_only: bool)
        ensures
            final(self).deep_view() == group_altered(old(self).deep_view(), group_id@, changes.deep_view(), validate_only),
    {
        if validate_only {
            return ;
        }
        let mut settings = self.group_config(group_id);
        apply_changes(&mut settings, changes);
        if settings.is_empty() {
            assert(settings.deep_view() =~= Map::empty());
            self.group_configs.remove(&group_id.to_owned());
        } else {
            self.group_configs.insert(group_id.to_owned(), settings);
        }
    }

    /// The settings that all brokers share.
    pub fn broker_config(&self) -> (r: SortedMap<String, String>)
        ensures
            r.deep_view() == self.deep_view().broker_configs,
    {
        self.broker_configs.duplicate()
    }

    /// Changes the settings that all brokers share, unless the request only asks whether it could.
    pub fn alter_broker_config(&mut self, changes: &SortedMap<String, Option<String>>, validate_only: bool)
        ensures
            final(self).deep_view() == broker_altered(old(self).deep_view(), changes.deep_view(), validate_only),
    {
        if validate_only {
            return ;
        }
        apply_changes(&mut self.broker_configs, changes);
    }
}

/// No group is listed without settings.
pub open spec fn no_empty_groups(configs: ConfigsView) -> bool {
    forall|group: Seq<char>| #[trigger] configs.group_configs.contains_key(group)
        ==> configs.group_configs[group] != Map::<Seq<char>, Seq<char>>::empty()
}

/// A change of a group's settings is read back from that group and from no other, and leaves no
/// group listed that has no settings.
pub proof fn group_changes_are_read_back(
    configs: ConfigsView,
    group: Seq<char>,
    changes: Map<Seq<char>, Option<Seq<char>>>,
    other: Seq<char>,
)
    requires
        no_empty_groups(configs),
    ensures
        ({
            let after = group_altered(configs, group, changes, false);
            &&& group_settings(after, group) == changed(group_settings(configs, group), changes)
            &&& other != group ==> group_settings(after, other) == group_settings(configs, other)
            &&& after.broker_configs == configs.broker_configs
            &&& no_empty_groups(after)
        }),
{
}

} // verus!
