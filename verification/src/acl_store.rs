//! The stored access rules.

use crate::acls;
use crate::acls::{
    authorize_by_resource_type_rules, authorize_rules, AclFilter, AclFilterView, AclOperation, AclPatternType,
    AclPermission, AclResourceType, AclRule, AclRuleView,
};
use crate::error;
use crate::error::{ControlError, ControlErrorView};
use crate::sorted_map;
use crate::sorted_map::{Duplicate, SortedMap};
use crate::text::same_text;
use vstd::prelude::*;

verus! {

/// The stored rules, none of them twice.
pub struct AclStore {
    pub rules: Vec<AclRule>,
}

impl DeepView for AclStore {
    type V = Seq<AclRuleView>;

    open spec fn deep_view(&self) -> Seq<AclRuleView> {
        self.rules.deep_view()
    }
}

/// By what rules are ordered: type, name and kind of the resource, principal, host, operation and
/// permission.
pub type RuleOrder = ((((((i32, String), i32), String), String), i32), i32);

/// The model of [`RuleOrder`].
pub type RuleOrderView = ((((((i32, Seq<char>), i32), Seq<char>), Seq<char>), i32), i32);

/// Where a rule stands in the order of rules.
pub open spec fn order_of(rule: AclRuleView) -> RuleOrderView {
    (
        (
            (
                (
                    ((rule.resource_type.number() as i32, rule.resource_name), rule.pattern_type.number() as i32),
                    rule.principal,
                ),
                rule.host,
            ),
            rule.operation.number() as i32,
        ),
        rule.permission.number() as i32,
    )
}

fn find_order(rule: &AclRule) -> (r: RuleOrder)
    ensures
        r.deep_view() == order_of(rule.deep_view()),
{
    (
        (
            (
                (
                    ((rule.resource_type.code() as i32, rule.resource_name.clone()), rule.pattern_type.code() as i32),
                    rule.principal.clone(),
                ),
                rule.host.clone(),
            ),
            rule.operation.code() as i32,
        ),
        rule.permission.code() as i32,
    )
}

/// The rules after one more has been stored, unless it was before.
pub open spec fn created(rules: Seq<AclRuleView>, rule: AclRuleView) -> (Seq<AclRuleView>, Result<(), ControlErrorView>) {
    match acls::rule_verdict(rule) {
        Err(refusal) => (rules, Err(refusal)),
        Ok(_) => (
            if rules.contains(rule) {
                rules
            } else {
                rules.push(rule)
            },
            Ok(()),
        ),
    }
}

/// The places of the rules that a filter asks for, each behind where the rule stands in the order.
pub open spec fn asked_places(rules: Seq<AclRuleView>, filter: AclFilterView) -> Set<(RuleOrderView, usize)> {
    Set::new(
        |place: (RuleOrderView, usize)|
            place.1 < rules.len() && place.0 == order_of(rules[place.1 as int]) && acls::is_asked(filter, rules[place.1 as int]),
    )
}

/// The rules that a filter asks for, in order.
pub open spec fn described(rules: Seq<AclRuleView>, filter: AclFilterView) -> Seq<AclRuleView> {
    let order = sorted_map::sorted_keys::<(RuleOrder, usize)>(asked_places(rules, filter));
    Seq::new(order.len(), |i: int| rules[order[i].1 as int])
}

/// The rules that a filter asks for, as they are stored, or those that it does not ask for.
pub open spec fn parted(rules: Seq<AclRuleView>, filter: AclFilterView, asked: bool) -> Seq<AclRuleView>
    decreases rules.len(),
{
    if rules.len() == 0 {
        rules
    } else if acls::is_asked(filter, rules.last()) == asked {
        parted(rules.drop_last(), filter, asked).push(rules.last())
    } else {
        parted(rules.drop_last(), filter, asked)
    }
}

/// The rules that are left after those that the first `n` filters ask for have been deleted.
pub open spec fn left_after(rules: Seq<AclRuleView>, filters: Seq<AclFilterView>, n: int) -> Seq<AclRuleView>
    decreases n,
{
    if n <= 0 {
        rules
    } else {
        parted(left_after(rules, filters, n - 1), filters[n - 1], false)
    }
}

/// What each filter of a list has deleted: a rule goes with the first filter that asks for it.
pub open spec fn deleted(rules: Seq<AclRuleView>, filters: Seq<AclFilterView>) -> Seq<Seq<AclRuleView>> {
    Seq::new(filters.len(), |i: int| parted(left_after(rules, filters, i), filters[i], true))
}

fn same_rule(a: &AclRule, b: &AclRule) -> (r: bool)
    ensures
        r == (a.deep_view() == b.deep_view()),
{
    a.resource_type == b.resource_type && same_text(a.resource_name.as_str(), b.resource_name.as_str()) && a.pattern_type == b.pattern_type
        && same_text(a.principal.as_str(), b.principal.as_str()) && same_text(a.host.as_str(), b.host.as_str()) && a.operation
        == b.operation && a.permission == b.permission
}

fn part_rules(rules: &Vec<AclRule>, filter: &AclFilter) -> (r: (Vec<AclRule>, Vec<AclRule>))
    ensures
        r.0.deep_view() == parted(rules.deep_view(), filter.deep_view(), true),
        r.1.deep_view() == parted(rules.deep_view(), filter.deep_view(), false),
{
    let ghost all = rules.deep_view();
    let ghost f = filter.deep_view();
    let mut asked: Vec<AclRule> = Vec::new();
    let mut left: Vec<AclRule> = Vec::new();
    let mut i: usize = 0;
    assert(all.take(0) =~= Seq::empty());
    assert(asked.deep_view() =~= Seq::empty());
    assert(left.deep_view() =~= Seq::empty());
    while i < rules.len()
        invariant
            i <= rules@.len(),
            all == rules.deep_view(),
            f == filter.deep_view(),
            asked.deep_view() == parted(all.take(i as int), f, true),
            left.deep_view() == parted(all.take(i as int), f, false),
        decreases rules@.len() - i,
    {
        proof {
            assert(all[i as int] == rules@[i as int].deep_view());
            sorted_map::prefix_grows(all, i as int);
        }
        if filter.matches(&rules[i]) {
            let ghost before = asked.deep_view();
            asked.push(rules[i].duplicate());
            assert(asked.deep_view() =~= before.push(all[i as int]));
        } else {
            let ghost before = left.deep_view();
            left.push(rules[i].duplicate());
            assert(left.deep_view() =~= before.push(all[i as int]));
        }
        i = i + 1;
    }
    assert(all.take(i as int) =~= all);
    (asked, left)
}

impl AclStore {
    pub fn new() -> (r: Self)
        ensures
            r.deep_view() == Seq::<AclRuleView>::empty(),
    {
        let r = AclStore { rules: Vec::new() };
        assert(r.rules.deep_view() =~= Seq::empty());
        r
    }

    fn holds(&self, rule: &AclRule) -> (r: bool)
        ensures
            r == self.deep_view().contains(rule.deep_view()),
    {
        let ghost all = self.deep_view();
        let mut i: usize = 0;
        while i < self.rules.len()
            invariant
                i <= self.rules@.len(),
                all == self.rules.deep_view(),
                forall|j: int| 0 <= j < i ==> #[trigger] all[j] != rule.deep_view(),
            decreases self.rules@.len() - i,
        {
            assert(all[i as int] == self.rules@[i as int].deep_view());
            if same_rule(&self.rules[i], rule) {
                return true;
            }
            i = i + 1;
        }
        false
    }

    /// Stores a rule.
    pub fn create_acl(&mut self, rule: AclRule) -> (r: Result<(), ControlError>)
        ensures
            (final(self).deep_view(), error::outcome(r)) == created(old(self).deep_view(), rule.deep_view()),
    {
        match rule.validate() {
            Ok(_) => {},
            Err(refusal) => return Err(refusal),
        }
        if !self.holds(&rule) {
            let ghost before = self.deep_view();
            self.rules.push(rule);
            assert(self.rules.deep_view() =~= before.push(rule.deep_view()));
        }
        Ok(())
    }

    /// Finds the rules that a filter asks for.
    pub fn describe_acls(&self, filter: &AclFilter) -> (r: Vec<AclRule>)
        ensures
            r.deep_view() == described(self.deep_view(), filter.deep_view()),
    {
        let ghost all = self.deep_view();
        let ghost f = filter.deep_view();
        let ghost places = asked_places(all, f);
        let mut order: SortedMap<(RuleOrder, usize), ()> = SortedMap::new();
        let mut i: usize = 0;
        while i < self.rules.len()
            invariant
                i <= self.rules@.len(),
                all == self.rules.deep_view(),
                f == filter.deep_view(),
                places == asked_places(all, f),
                forall|place: (RuleOrderView, usize)| #[trigger] order.deep_view().contains_key(place) <==> places.contains(place) && place.1 < i,
            decreases self.rules@.len() - i,
        {
            assert(all[i as int] == self.rules@[i as int].deep_view());
            if filter.matches(&self.rules[i]) {
                order.insert((find_order(&self.rules[i]), i), ());
            }
            i = i + 1;
        }
        assert(order.deep_view().dom() =~= places);
        let keys = order.keys();
        let ghost listed = keys.deep_view();
        let mut r: Vec<AclRule> = Vec::new();
        let mut n: usize = 0;
        while n < keys.len()
            invariant
                n <= keys@.len(),
                r@.len() == n,
                all == self.rules.deep_view(),
                listed == keys.deep_view(),
                listed.to_set() == places,
                places == asked_places(all, f),
                forall|j: int| 0 <= j < n ==> (#[trigger] r@[j]).deep_view() == all[listed[j].1 as int],
            decreases keys@.len() - n,
        {
            assert(listed[n as int] == keys@[n as int].deep_view());
            assert(listed.to_set().contains(listed[n as int]));
            let at: usize = keys[n].1;
            assert(all[at as int] == self.rules@[at as int].deep_view());
            r.push(self.rules[at].duplicate());
            n = n + 1;
        }
        assert(r.deep_view() =~= described(all, f));
        r
    }

    /// Deletes the rules that filters ask for, and gives them back by filter.
    pub fn delete_acls(&mut self, filters: &[AclFilter]) -> (r: Vec<Vec<AclRule>>)
        ensures
            r.deep_view() == deleted(old(self).deep_view(), sorted_map::models(filters@)),
            final(self).deep_view() == left_after(old(self).deep_view(), sorted_map::models(filters@), filters@.len() as int),
    {
        let ghost rules = self.deep_view();
        let ghost all = sorted_map::models(filters@);
        let mut r: Vec<Vec<AclRule>> = Vec::new();
        let mut i: usize = 0;
        while i < filters.len()
            invariant
                i <= filters@.len(),
                r@.len() == i,
                all == sorted_map::models(filters@),
                self.deep_view() == left_after(rules, all, i as int),
                forall|j: int| 0 <= j < i ==> (#[trigger] r@[j]).deep_view() == deleted(rules, all)[j],
            decreases filters@.len() - i,
        {
            assert(all[i as int] == filters@[i as int].deep_view());
            let (asked, left) = part_rules(&self.rules, &filters[i]);
            self.rules = left;
            r.push(asked);
            i = i + 1;
        }
        assert(r.deep_view() =~= deleted(rules, all));
        r
    }

    /// Decides whether the rules allow an operation on a resource.
    pub fn authorize(
        &self,
        principal: &str,
        host: &str,
        resource_type: AclResourceType,
        resource_name: &str,
        operation: AclOperation,
        allow_if_no_acl: bool,
    ) -> (r: bool)
        ensures
            r == acls::is_authorized(
                self.deep_view(),
                (acls::Asker { principal: principal@, host: host@ }),
                resource_type,
                resource_name@,
                operation,
                allow_if_no_acl,
            ),
    {
        assert(sorted_map::models(self.rules@) =~= self.rules.deep_view());
        authorize_rules(self.rules.as_slice(), principal, host, resource_type, resource_name, operation, allow_if_no_acl)
    }

    /// Decides whether the rules allow an operation on at least one resource of a type.
    pub fn authorize_by_resource_type(
        &self,
        principal: &str,
        host: &str,
        resource_type: AclResourceType,
        operation: AclOperation,
        allow_if_no_acl: bool,
    ) -> (r: bool)
        ensures
            r == acls::is_authorized_somewhere(
                self.deep_view(),
                (acls::Asker { principal: principal@, host: host@ }),
                resource_type,
                operation,
                allow_if_no_acl,
            ),
    {
        assert(sorted_map::models(self.rules@) =~= self.rules.deep_view());
        authorize_by_resource_type_rules(self.rules.as_slice(), principal, host, resource_type, operation, allow_if_no_acl)
    }
}

/// Every number that stands for a value is the number of that value, and back.
pub proof fn codes_round_trip(resource: AclResourceType, pattern: AclPatternType, operation: AclOperation, permission: AclPermission)
    ensures
        AclResourceType::numbered(resource.number()) == Some(resource),
        AclPatternType::numbered(pattern.number()) == Some(pattern),
        AclOperation::numbered(operation.number()) == Some(operation),
        AclPermission::numbered(permission.number()) == Some(permission),
{
}

/// The name of a resource type is read back as the same value.
pub proof fn resource_names_round_trip(resource: AclResourceType)
    ensures
        AclResourceType::titled(resource.title()) == Some(resource),
{
    reveal_strlit("TOPIC");
    reveal_strlit("GROUP");
    reveal_strlit("CLUSTER");
    reveal_strlit("TRANSACTIONAL_ID");
    reveal_strlit("DELEGATION_TOKEN");
    reveal_strlit("USER");
    assert("TOPIC"@.len() == 5);
    assert("GROUP"@.len() == 5);
    assert("CLUSTER"@.len() == 7);
    assert("TRANSACTIONAL_ID"@.len() == 16);
    assert("DELEGATION_TOKEN"@.len() == 16);
    assert("USER"@.len() == 4);
    assert("TOPIC"@[0] == 'T');
    assert("GROUP"@[0] == 'G');
    assert("TRANSACTIONAL_ID"@[0] == 'T');
    assert("DELEGATION_TOKEN"@[0] == 'D');
}

/// The name of a pattern type is read back as the same value.
pub proof fn pattern_names_round_trip(pattern: AclPatternType)
    ensures
        AclPatternType::titled(pattern.title()) == Some(pattern),
{
    reveal_strlit("LITERAL");
    reveal_strlit("PREFIXED");
    assert("LITERAL"@.len() == 7);
    assert("PREFIXED"@.len() == 8);
}

/// The name of an operation is read back as the same value.
pub proof fn operation_names_round_trip(operation: AclOperation)
    ensures
        AclOperation::titled(operation.title()) == Some(operation),
{
    reveal_strlit("ALL");
    reveal_strlit("READ");
    reveal_strlit("WRITE");
    reveal_strlit("CREATE");
    reveal_strlit("DELETE");
    reveal_strlit("ALTER");
    reveal_strlit("DESCRIBE");
    reveal_strlit("CLUSTER_ACTION");
    reveal_strlit("DESCRIBE_CONFIGS");
    reveal_strlit("ALTER_CONFIGS");
    reveal_strlit("IDEMPOTENT_WRITE");
    reveal_strlit("CREATE_TOKENS");
    reveal_strlit("DESCRIBE_TOKENS");
    reveal_strlit("TWO_PHASE_COMMIT");
    assert("ALL"@.len() == 3);
    assert("READ"@.len() == 4);
    assert("WRITE"@.len() == 5);
    assert("CREATE"@.len() == 6);
    assert("DELETE"@.len() == 6);
    assert("ALTER"@.len() == 5);
    assert("DESCRIBE"@.len() == 8);
    assert("CLUSTER_ACTION"@.len() == 14);
    assert("DESCRIBE_CONFIGS"@.len() == 16);
    assert("ALTER_CONFIGS"@.len() == 13);
    assert("IDEMPOTENT_WRITE"@.len() == 16);
    assert("CREATE_TOKENS"@.len() == 13);
    assert("DESCRIBE_TOKENS"@.len() == 15);
    assert("TWO_PHASE_COMMIT"@.len() == 16);
    assert("WRITE"@[0] == 'W');
    assert("ALTER"@[0] == 'A');
    assert("CREATE"@[0] == 'C');
    assert("DELETE"@[0] == 'D');
    assert("DESCRIBE_CONFIGS"@[0] == 'D');
    assert("IDEMPOTENT_WRITE"@[0] == 'I');
    assert("TWO_PHASE_COMMIT"@[0] == 'T');
    assert("ALTER_CONFIGS"@[0] == 'A');
    assert("CREATE_TOKENS"@[0] == 'C');
}

/// The name of a permission is read back as the same value.
pub proof fn permission_names_round_trip(permission: AclPermission)
    ensures
        AclPermission::titled(permission.title()) == Some(permission),
{
    reveal_strlit("DENY");
    reveal_strlit("ALLOW");
    assert("DENY"@.len() == 4);
    assert("ALLOW"@.len() == 5);
}

/// A rule that denies an operation wins over every rule that grants it.
pub proof fn deny_wins(
    rules: Seq<AclRuleView>,
    i: int,
    asker: acls::Asker,
    resource_type: AclResourceType,
    resource_name: Seq<char>,
    operation: AclOperation,
    allow_if_no_acl: bool,
)
    requires
        0 <= i < rules.len(),
        rules[i].resource_type == resource_type,
        acls::applies(rules[i], resource_name),
        acls::is_about(rules[i], asker),
        acls::operation_covers(rules[i].operation, operation),
        rules[i].permission == AclPermission::Deny,
    ensures
        !acls::is_authorized(rules, asker, resource_type, resource_name, operation, allow_if_no_acl),
{
    assert(rules[i].resource_type == resource_type);
    assert(acls::is_ruled(rules, resource_type, resource_name));
    assert(acls::some_rule(rules, asker, resource_type, resource_name, operation, AclPermission::Deny));
}

/// Permission for two-phase commits follows from permission for everything, and from nothing else
/// but itself.
pub proof fn two_phase_commit_stands_alone(held: AclOperation)
    ensures
        acls::operation_covers(held, AclOperation::TwoPhaseCommit) <==> held == AclOperation::All || held == AclOperation::TwoPhaseCommit,
{
}

/// No filter asks for a rule that is left after a deletion by that filter.
proof fn left_rules_are_not_asked(rules: Seq<AclRuleView>, filter: AclFilterView)
    ensures
        forall|i: int| 0 <= i < parted(rules, filter, false).len() ==> !acls::is_asked(filter, #[trigger] parted(rules, filter, false)[i])
            && rules.contains(
            parted(rules, filter, false)[i],
        ),
    decreases rules.len(),
{
    if rules.len() > 0 {
        let rest = rules.drop_last();
        left_rules_are_not_asked(rest, filter);
        let left = parted(rules, filter, false);
        let before = parted(rest, filter, false);
        assert forall|i: int| 0 <= i < left.len() implies !acls::is_asked(filter, #[trigger] left[i]) && rules.contains(left[i]) by {
            if i < before.len() {
                assert(left[i] == before[i]);
                let j = choose|j: int| 0 <= j < rest.len() && rest[j] == before[i];
                assert(rules[j] == left[i]);
            } else {
                assert(left[i] == rules.last());
                assert(rules[rules.len() - 1] == left[i]);
            }
        }
    }
}

/// After a deletion no rule is left that one of the filters asks for, and nothing is left that was
/// not there before.
pub proof fn deleted_rules_are_gone(rules: Seq<AclRuleView>, filters: Seq<AclFilterView>, n: int, rule: AclRuleView)
    requires
        0 <= n <= filters.len(),
        left_after(rules, filters, n).contains(rule),
    ensures
        rules.contains(rule),
        forall|i: int| 0 <= i < n ==> !acls::is_asked(#[trigger] filters[i], rule),
    decreases n,
{
    if n > 0 {
        let before = left_after(rules, filters, n - 1);
        let left = left_after(rules, filters, n);
        left_rules_are_not_asked(before, filters[n - 1]);
        let k = choose|k: int| 0 <= k < left.len() && left[k] == rule;
        assert(parted(before, filters[n - 1], false)[k] == rule);
        deleted_rules_are_gone(rules, filters, n - 1, rule);
        assert forall|i: int| 0 <= i < n implies !acls::is_asked(#[trigger] filters[i], rule) by {
            if i == n - 1 {
                assert(!acls::is_asked(filters[n - 1], left[k]));
            }
        }
    }
}

/// A rule that was accepted is found by every filter that asks for it.
pub proof fn created_rules_are_found(rules: Seq<AclRuleView>, rule: AclRuleView, filter: AclFilterView)
    requires
        acls::rule_verdict(rule) is Ok,
        acls::is_asked(filter, rule),
        rules.len() < usize::MAX,
    ensures
        described(created(rules, rule).0, filter).contains(rule),
{
    let after = created(rules, rule).0;
    assert(after.contains(rule)) by {
        if !rules.contains(rule) {
            assert(after[rules.len() as int] == rule);
        }
    }
    let i = choose|i: int| 0 <= i < after.len() && after[i] == rule;
    let places = asked_places(after, filter);
    let listed = Seq::new(after.len(), |i: int| (order_of(after[i]), i as usize));
    assert forall|place: (RuleOrderView, usize)| #[trigger] places.contains(place) implies listed.to_set().contains(place) by {
        assert(listed[place.1 as int] == place);
    }
    assert(places.subset_of(listed.to_set()));
    vstd::set_lib::lemma_set_subset_finite(listed.to_set(), places);
    sorted_map::finite_sets_are_listed::<(RuleOrder, usize)>(places);
    let order = sorted_map::sorted_keys::<(RuleOrder, usize)>(places);
    let place = (order_of(rule), i as usize);
    assert(places.contains(place));
    assert(order.to_set().contains(place));
    let k = choose|k: int| 0 <= k < order.len() && order[k] == place;
    assert(described(after, filter)[k] == rule);
}

} // verus!
