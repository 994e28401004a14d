//! Who may do what, and for how long a token speaks for its owner.

use crate::acl_store;
use crate::acls;
use crate::acls::{AclFilterView, AclOperation, AclPatternFilter, AclPatternType, AclPermission, AclResourceType, AclRuleView, Asker};
use crate::delegation_tokens;
use crate::delegation_tokens::{DelegationTokenView, TokensView};
use crate::error::ControlErrorView;
use crate::numbers;
use crate::sorted_map;
use vstd::prelude::*;

verus! {

/// Whether a rule is about a resource: one of that name, any resource where the rule names none, or one
/// whose name begins with that of a rule for such names.
pub open spec fn names_resource(rule: AclRuleView, resource_type: AclResourceType, name: Seq<char>) -> bool {
    &&& rule.resource_type == resource_type
    &&& match rule.pattern_type {
        AclPatternType::Literal => rule.resource_name == name || rule.resource_name == "*"@,
        AclPatternType::Prefixed => exists|rest: Seq<char>| name == #[trigger] (rule.resource_name + rest),
    }
}

/// Whether a rule speaks of a principal that comes from a host.
pub open spec fn names_asker(rule: AclRuleView, asker: Asker) -> bool {
    &&& rule.principal == asker.principal || rule.principal == "User:*"@
    &&& rule.host == asker.host || rule.host == "*"@
}

/// Whether a rule for one operation is a rule for another: one for everything is, and whoever may read,
/// write, delete or alter may also describe; who may alter configurations may describe them.
pub open spec fn extends_to(held: AclOperation, asked: AclOperation) -> bool {
    match asked {
        AclOperation::Describe => held == asked || held == AclOperation::All || held == AclOperation::Read || held == AclOperation::Write || held
            == AclOperation::Delete || held == AclOperation::Alter,
        AclOperation::DescribeConfigs => held == asked || held == AclOperation::All || held == AclOperation::AlterConfigs,
        _ => held == asked || held == AclOperation::All,
    }
}

/// Whether a rule settles a question one way or the other.
pub open spec fn settles(
    rule: AclRuleView,
    asker: Asker,
    resource_type: AclResourceType,
    name: Seq<char>,
    operation: AclOperation,
    permission: AclPermission,
) -> bool {
    names_resource(rule, resource_type, name) && names_asker(rule, asker) && extends_to(rule.operation, operation) && rule.permission
        == permission
}

proof fn applying_rules_name_the_resource(rule: AclRuleView, name: Seq<char>)
    ensures
        acls::applies(rule, name) <==> names_resource(rule, rule.resource_type, name),
{
    if rule.pattern_type == AclPatternType::Prefixed {
        let prefix = rule.resource_name;
        if acls::applies(rule, name) {
            let rest = name.skip(prefix.len() as int);
            assert(name =~= prefix + rest);
        }
        if exists|rest: Seq<char>| name == #[trigger] (prefix + rest) {
            let rest = choose|rest: Seq<char>| name == #[trigger] (prefix + rest);
            assert(name.take(prefix.len() as int) =~= prefix);
        }
    }
}

/// Who is let in: where no rule names a resource, the default decides. Where one does, the one who asks
/// needs a rule that grants the operation, and no rule may deny it.
pub proof fn access_needs_a_grant_and_no_denial(
    rules: Seq<AclRuleView>,
    asker: Asker,
    resource_type: AclResourceType,
    name: Seq<char>,
    operation: AclOperation,
    allow_if_no_acl: bool,
)
    ensures
        ({
            let granted = acls::is_authorized(rules, asker, resource_type, name, operation, allow_if_no_acl);
            let named = exists|i: int| 0 <= i < rules.len() && names_resource(#[trigger] rules[i], resource_type, name);
            &&& !named ==> granted == allow_if_no_acl
            &&& named && granted ==> exists|i: int|
                0 <= i < rules.len() && settles(#[trigger] rules[i], asker, resource_type, name, operation, AclPermission::Allow)
            &&& granted ==> forall|i: int|
                0 <= i < rules.len() ==> !settles(#[trigger] rules[i], asker, resource_type, name, operation, AclPermission::Deny)
            &&& (exists|i: int| 0 <= i < rules.len() && settles(#[trigger] rules[i], asker, resource_type, name, operation, AclPermission::Allow))
                && (forall|i: int|
                0 <= i < rules.len() ==> !settles(#[trigger] rules[i], asker, resource_type, name, operation, AclPermission::Deny)) ==> granted
        }),
{
    assert forall|i: int| 0 <= i < rules.len() implies (names_resource(#[trigger] rules[i], resource_type, name) <==> rules[i].resource_type
        == resource_type && acls::applies(rules[i], name)) by {
        applying_rules_name_the_resource(rules[i], name);
    }
    assert forall|i: int, permission: AclPermission|
        #![trigger settles(rules[i], asker, resource_type, name, operation, permission)]
        0 <= i < rules.len() implies (settles(rules[i], asker, resource_type, name, operation, permission) <==> rules[i].resource_type
        == resource_type && acls::applies(rules[i], name) && acls::is_about(rules[i], asker) && acls::operation_covers(rules[i].operation, operation)
        && rules[i].permission == permission) by {
        applying_rules_name_the_resource(rules[i], name);
    }
    let named = exists|i: int| 0 <= i < rules.len() && names_resource(#[trigger] rules[i], resource_type, name);
    if named {
        let i = choose|i: int| 0 <= i < rules.len() && names_resource(#[trigger] rules[i], resource_type, name);
        assert(acls::is_ruled(rules, resource_type, name));
    } else {
        assert(!acls::is_ruled(rules, resource_type, name));
    }
    if acls::some_rule(rules, asker, resource_type, name, operation, AclPermission::Allow) {
        let i = choose|i: int|
            0 <= i < rules.len() && (#[trigger] rules[i]).resource_type == resource_type && acls::applies(rules[i], name) && acls::is_about(
                rules[i],
                asker,
            ) && acls::operation_covers(rules[i].operation, operation) && rules[i].permission == AclPermission::Allow;
        assert(settles(rules[i], asker, resource_type, name, operation, AclPermission::Allow));
    }
    if exists|i: int| 0 <= i < rules.len() && settles(#[trigger] rules[i], asker, resource_type, name, operation, AclPermission::Allow) {
        let i = choose|i: int| 0 <= i < rules.len() && settles(#[trigger] rules[i], asker, resource_type, name, operation, AclPermission::Allow);
        assert(rules[i].resource_type == resource_type);
        assert(acls::some_rule(rules, asker, resource_type, name, operation, AclPermission::Allow));
    }
    if acls::some_rule(rules, asker, resource_type, name, operation, AclPermission::Deny) {
        let i = choose|i: int|
            0 <= i < rules.len() && (#[trigger] rules[i]).resource_type == resource_type && acls::applies(rules[i], name) && acls::is_about(
                rules[i],
                asker,
            ) && acls::operation_covers(rules[i].operation, operation) && rules[i].permission == AclPermission::Deny;
        assert(settles(rules[i], asker, resource_type, name, operation, AclPermission::Deny));
    }
    assert forall|i: int| 0 <= i < rules.len() && settles(#[trigger] rules[i], asker, resource_type, name, operation, AclPermission::Deny)
        implies acls::some_rule(rules, asker, resource_type, name, operation, AclPermission::Deny) && acls::is_ruled(rules, resource_type, name) by {
    }
}

/// One more rule that grants can only let in, and one more that denies can only keep out, wherever some
/// rule named the resource already.
pub proof fn more_rules_move_access_one_way(
    rules: Seq<AclRuleView>,
    rule: AclRuleView,
    asker: Asker,
    resource_type: AclResourceType,
    name: Seq<char>,
    operation: AclOperation,
    allow_if_no_acl: bool,
    i: int,
)
    requires
        0 <= i < rules.len(),
        names_resource(rules[i], resource_type, name),
    ensures
        ({
            let before = acls::is_authorized(rules, asker, resource_type, name, operation, allow_if_no_acl);
            let after = acls::is_authorized(rules.push(rule), asker, resource_type, name, operation, allow_if_no_acl);
            &&& rule.permission == AclPermission::Allow && before ==> after
            &&& rule.permission == AclPermission::Deny && after ==> before
        }),
{
    let more = rules.push(rule);
    access_needs_a_grant_and_no_denial(rules, asker, resource_type, name, operation, allow_if_no_acl);
    access_needs_a_grant_and_no_denial(more, asker, resource_type, name, operation, allow_if_no_acl);
    assert(more[i] == rules[i]);
    let before = acls::is_authorized(rules, asker, resource_type, name, operation, allow_if_no_acl);
    let after = acls::is_authorized(more, asker, resource_type, name, operation, allow_if_no_acl);
    if rule.permission == AclPermission::Allow && before {
        let k = choose|k: int| 0 <= k < rules.len() && settles(#[trigger] rules[k], asker, resource_type, name, operation, AclPermission::Allow);
        assert(settles(more[k], asker, resource_type, name, operation, AclPermission::Allow));
    }
    if rule.permission == AclPermission::Deny && after {
        let k = choose|k: int| 0 <= k < more.len() && settles(#[trigger] more[k], asker, resource_type, name, operation, AclPermission::Allow);
        assert(settles(rules[k], asker, resource_type, name, operation, AclPermission::Allow));
        assert forall|j: int| 0 <= j < rules.len() implies !settles(
            #[trigger] rules[j],
            asker,
            resource_type,
            name,
            operation,
            AclPermission::Deny,
        ) by {
            assert(more[j] == rules[j]);
        }
    }
}

/// Access to some resource of a type: a rule that denies the operation on every resource keeps out; and
/// one that grants it on some resource, or on names that begin alike, lets in as long as no rule about
/// the one who asks denies anything. Where the default does not let in, nobody gets in without a rule
/// that grants.
pub proof fn access_to_some_resource_needs_a_grant(
    rules: Seq<AclRuleView>,
    asker: Asker,
    resource_type: AclResourceType,
    operation: AclOperation,
    allow_if_no_acl: bool,
    i: int,
)
    requires
        0 <= i < rules.len(),
    ensures
        ({
            let granted = acls::is_authorized_somewhere(rules, asker, resource_type, operation, allow_if_no_acl);
            let rule = rules[i];
            let exact = rule.resource_type == resource_type && names_asker(rule, asker) && (rule.operation == operation || rule.operation
                == AclOperation::All);
            &&& exact && rule.permission == AclPermission::Deny && rule.pattern_type == AclPatternType::Literal && rule.resource_name == "*"@
                ==> !granted
            &&& exact && rule.permission == AclPermission::Allow && (forall|k: int|
                0 <= k < rules.len() && (#[trigger] rules[k]).resource_type == resource_type && names_asker(rules[k], asker)
                    ==> rules[k].permission == AclPermission::Allow) ==> granted
            &&& granted && !allow_if_no_acl ==> exists|k: int|
                0 <= k < rules.len() && (#[trigger] rules[k]).resource_type == resource_type && names_asker(rules[k], asker)
                    && rules[k].permission == AclPermission::Allow && extends_to(rules[k].operation, operation)
        }),
{
    let granted = acls::is_authorized_somewhere(rules, asker, resource_type, operation, allow_if_no_acl);
    let rule = rules[i];
    access_needs_a_grant_and_no_denial(rules, asker, resource_type, acls::ANY_RESOURCE@, operation, allow_if_no_acl);
    let exact = rule.resource_type == resource_type && names_asker(rule, asker) && (rule.operation == operation || rule.operation
        == AclOperation::All);
    if exact && rule.permission == AclPermission::Deny && rule.pattern_type == AclPatternType::Literal && rule.resource_name == "*"@ {
        assert(settles(rule, asker, resource_type, acls::ANY_RESOURCE@, operation, AclPermission::Deny));
        assert(acls::has_pattern(rules, asker, resource_type, operation, AclPermission::Deny, AclPatternType::Literal, "*"@));
    }
    if exact && rule.permission == AclPermission::Allow && (forall|k: int|
        0 <= k < rules.len() && (#[trigger] rules[k]).resource_type == resource_type && names_asker(rules[k], asker) ==> rules[k].permission
            == AclPermission::Allow) {
        let name = rule.resource_name;
        assert(acls::has_pattern(rules, asker, resource_type, operation, AclPermission::Allow, rule.pattern_type, name));
        assert forall|kind: AclPatternType, other: Seq<char>| !(#[trigger] acls::has_pattern(
            rules,
            asker,
            resource_type,
            operation,
            AclPermission::Deny,
            kind,
            other,
        )) by {
            if acls::has_pattern(rules, asker, resource_type, operation, AclPermission::Deny, kind, other) {
                let k = choose|k: int|
                    0 <= k < rules.len() && (#[trigger] rules[k]).resource_type == resource_type && acls::is_about(rules[k], asker) && (
                    rules[k].operation == operation || rules[k].operation == AclOperation::All) && rules[k].permission == AclPermission::Deny
                        && rules[k].pattern_type == kind && rules[k].resource_name == other;
                assert(rules[k].resource_type == resource_type && names_asker(rules[k], asker));
            }
        }
        assert(acls::grants(rules, asker, resource_type, operation, name));
    }
    if granted && !allow_if_no_acl {
        if acls::is_authorized(rules, asker, resource_type, acls::ANY_RESOURCE@, operation, allow_if_no_acl) {
            let k = choose|k: int|
                0 <= k < rules.len() && settles(#[trigger] rules[k], asker, resource_type, acls::ANY_RESOURCE@, operation, AclPermission::Allow);
            assert(rules[k].resource_type == resource_type);
        } else {
            let name = if acls::has_pattern(rules, asker, resource_type, operation, AclPermission::Allow, AclPatternType::Literal, "*"@) {
                "*"@
            } else {
                choose|name: Seq<char>| #[trigger] acls::grants(rules, asker, resource_type, operation, name)
            };
            let kind = if acls::has_pattern(rules, asker, resource_type, operation, AclPermission::Allow, AclPatternType::Literal, name) {
                AclPatternType::Literal
            } else {
                AclPatternType::Prefixed
            };
            assert(acls::has_pattern(rules, asker, resource_type, operation, AclPermission::Allow, kind, name));
            let k = choose|k: int|
                0 <= k < rules.len() && (#[trigger] rules[k]).resource_type == resource_type && acls::is_about(rules[k], asker) && (
                rules[k].operation == operation || rules[k].operation == AclOperation::All) && rules[k].permission == AclPermission::Allow
                    && rules[k].pattern_type == kind && rules[k].resource_name == name;
            assert(rules[k].resource_type == resource_type && names_asker(rules[k], asker));
        }
    }
}

/// Whether a filter leaves a rule out: by its type, its principal, its host, its operation, its
/// permission, or its resource.
pub open spec fn leaves_out(filter: AclFilterView, rule: AclRuleView) -> bool {
    ||| filter.resource_type is Some && filter.resource_type->0 != rule.resource_type
    ||| filter.principal is Some && filter.principal->0 != rule.principal
    ||| filter.host is Some && filter.host->0 != rule.host
    ||| filter.operation is Some && filter.operation->0 != rule.operation
    ||| filter.permission is Some && filter.permission->0 != rule.permission
    ||| filter.pattern_type == AclPatternFilter::Literal && rule.pattern_type != AclPatternType::Literal
    ||| filter.pattern_type == AclPatternFilter::Prefixed && rule.pattern_type != AclPatternType::Prefixed
    ||| filter.pattern_type == AclPatternFilter::Match && (filter.resource_name is None || !names_resource(
        rule,
        rule.resource_type,
        filter.resource_name->0,
    ))
    ||| filter.pattern_type != AclPatternFilter::Match && filter.resource_name is Some && filter.resource_name->0 != rule.resource_name
}

proof fn asked_rules_are_not_left_out(filter: AclFilterView, rule: AclRuleView)
    ensures
        acls::is_asked(filter, rule) <==> !leaves_out(filter, rule),
{
    if filter.resource_name is Some {
        applying_rules_name_the_resource(rule, filter.resource_name->0);
    }
}

/// What a listing of rules gives: the stored rules that the filter does not leave out, and no others.
pub proof fn listings_follow_their_filter(rules: Seq<AclRuleView>, filter: AclFilterView, rule: AclRuleView)
    requires
        rules.len() <= usize::MAX,
    ensures
        acl_store::described(rules, filter).contains(rule) <==> rules.contains(rule) && !leaves_out(filter, rule),
{
    asked_rules_are_not_left_out(filter, rule);
    let places = acl_store::asked_places(rules, filter);
    let listed = Seq::new(rules.len(), |i: int| (acl_store::order_of(rules[i]), i as usize));
    assert forall|place: (acl_store::RuleOrderView, usize)| #[trigger] places.contains(place) implies listed.to_set().contains(place) by {
        assert(listed[place.1 as int] == place);
    }
    assert(places.subset_of(listed.to_set()));
    vstd::seq_lib::seq_to_set_is_finite(listed);
    vstd::set_lib::lemma_set_subset_finite(listed.to_set(), places);
    sorted_map::finite_sets_are_listed::<(acl_store::RuleOrder, usize)>(places);
    let order = sorted_map::sorted_keys::<(acl_store::RuleOrder, usize)>(places);
    let found = acl_store::described(rules, filter);
    if found.contains(rule) {
        let k = choose|k: int| 0 <= k < found.len() && found[k] == rule;
        assert(order.to_set().contains(order[k]));
        assert(rules[order[k].1 as int] == rule);
    }
    if rules.contains(rule) && acls::is_asked(filter, rule) {
        let i = choose|i: int| 0 <= i < rules.len() && rules[i] == rule;
        let place = (acl_store::order_of(rule), i as usize);
        assert(places.contains(place));
        assert(order.to_set().contains(place));
        let k = choose|k: int| 0 <= k < order.len() && order[k] == place;
        assert(found[k] == rule);
    }
}

proof fn parting_keeps_one_side(rules: Seq<AclRuleView>, filter: AclFilterView, asked: bool, rule: AclRuleView)
    ensures
        acl_store::parted(rules, filter, asked).contains(rule) <==> rules.contains(rule) && acls::is_asked(filter, rule) == asked,
    decreases rules.len(),
{
    if rules.len() > 0 {
        let rest = rules.drop_last();
        parting_keeps_one_side(rest, filter, asked, rule);
        let all = acl_store::parted(rules, filter, asked);
        let before = acl_store::parted(rest, filter, asked);
        assert(rules.contains(rule) <==> rest.contains(rule) || rule == rules.last()) by {
            if rest.contains(rule) {
                let i = choose|i: int| 0 <= i < rest.len() && rest[i] == rule;
                assert(rules[i] == rule);
            }
            if rules.contains(rule) {
                let i = choose|i: int| 0 <= i < rules.len() && rules[i] == rule;
                if i < rest.len() {
                    assert(rest[i] == rule);
                }
            }
            assert(rules[rules.len() - 1] == rules.last());
        }
        if acls::is_asked(filter, rules.last()) == asked {
            assert(all.contains(rule) <==> before.contains(rule) || rule == rules.last()) by {
                if before.contains(rule) {
                    let i = choose|i: int| 0 <= i < before.len() && before[i] == rule;
                    assert(all[i] == rule);
                }
                assert(all[before.len() as int] == rules.last());
                if all.contains(rule) {
                    let i = choose|i: int| 0 <= i < all.len() && all[i] == rule;
                    if i < before.len() {
                        assert(before[i] == rule);
                    }
                }
            }
        }
    }
}

/// What a deletion does: a stored rule is left just where every filter leaves it out, and each filter is
/// answered with the rules that it does not leave out and that no filter before it has taken.
pub proof fn deletions_follow_their_filters(rules: Seq<AclRuleView>, filters: Seq<AclFilterView>, n: int, rule: AclRuleView)
    requires
        0 <= n <= filters.len(),
    ensures
        acl_store::left_after(rules, filters, n).contains(rule) <==> rules.contains(rule) && forall|i: int|
            0 <= i < n ==> leaves_out(#[trigger] filters[i], rule),
        n < filters.len() ==> (acl_store::deleted(rules, filters)[n].contains(rule) <==> rules.contains(rule) && !leaves_out(filters[n], rule)
            && forall|i: int| 0 <= i < n ==> leaves_out(#[trigger] filters[i], rule)),
    decreases n,
{
    if n > 0 {
        deletions_follow_their_filters(rules, filters, n - 1, rule);
        parting_keeps_one_side(acl_store::left_after(rules, filters, n - 1), filters[n - 1], false, rule);
        asked_rules_are_not_left_out(filters[n - 1], rule);
    }
    if n < filters.len() {
        parting_keeps_one_side(acl_store::left_after(rules, filters, n), filters[n], true, rule);
        asked_rules_are_not_left_out(filters[n], rule);
    }
}

/// Which rules are accepted: those that name a resource, a host and a principal of some type. An
/// accepted rule is stored once however often it is sent, and no other rule is touched.
pub proof fn rules_are_stored_once(rules: Seq<AclRuleView>, rule: AclRuleView, other: AclRuleView)
    ensures
        ({
            let (after, answer) = acl_store::created(rules, rule);
            &&& answer is Ok <==> rule.resource_name.len() > 0 && rule.host.len() > 0 && rule.principal.contains(':')
            &&& answer is Err ==> after == rules
            &&& answer is Ok ==> after.contains(rule) && acl_store::created(after, rule) == (after, answer)
            &&& other != rule ==> (after.contains(other) <==> rules.contains(other))
            &&& rules.no_duplicates() ==> after.no_duplicates()
        }),
{
    let (after, answer) = acl_store::created(rules, rule);
    if rule.principal.contains(':') {
        assert(rule.principal.len() > 0);
    }
    if answer is Ok {
        if !rules.contains(rule) {
            assert(after[rules.len() as int] == rule);
            if rules.contains(other) {
                let i = choose|i: int| 0 <= i < rules.len() && rules[i] == other;
                assert(after[i] == other);
            }
            if after.contains(other) && other != rule {
                let i = choose|i: int| 0 <= i < after.len() && after[i] == other;
                assert(rules[i] == other);
            }
            if rules.no_duplicates() {
                assert forall|i: int, j: int| 0 <= i < after.len() && 0 <= j < after.len() && i != j implies after[i] != after[j] by {
                    if i == rules.len() {
                        assert(rules[j] == after[j]);
                    } else if j == rules.len() {
                        assert(rules[i] == after[i]);
                    }
                }
            }
        }
    }
}

/// Whether a token is of use at some time: neither its time nor its greatest age is over.
pub open spec fn is_usable(token: DelegationTokenView, now_ms: int) -> bool {
    now_ms <= token.expiry_timestamp_ms && now_ms <= token.max_timestamp_ms
}

/// A token is found by its id, and listed, for as long as it is usable, and no longer; and a clean-up
/// takes those that no longer are, up to its limit, and no other.
pub proof fn tokens_are_found_while_usable(tokens: TokensView, id: Seq<char>, now_ms: i64, limit: usize)
    requires
        tokens.dom().finite(),
        tokens.contains_key(id),
    ensures
        delegation_tokens::token_with_id(tokens, id, now_ms as int) == if is_usable(tokens[id], now_ms as int) {
            Some(tokens[id])
        } else {
            None
        },
        is_usable(tokens[id], now_ms as int) ==> delegation_tokens::live_tokens(tokens, now_ms as int).contains(tokens[id]),
        forall|i: int|
            0 <= i < delegation_tokens::live_tokens(tokens, now_ms as int).len() ==> is_usable(
                #[trigger] delegation_tokens::live_tokens(tokens, now_ms as int)[i],
                now_ms as int,
            ),
        delegation_tokens::cleaned_ids(tokens, now_ms as int, limit).len() <= limit,
        is_usable(tokens[id], now_ms as int) ==> !delegation_tokens::cleaned_ids(tokens, now_ms as int, limit).contains(id),
        !is_usable(tokens[id], now_ms as int) && delegation_tokens::cleaned_ids(tokens, now_ms as int, limit).len() < limit
            ==> delegation_tokens::cleaned_ids(tokens, now_ms as int, limit).contains(id),
{
    let live = sorted_map::filtered(tokens, delegation_tokens::is_live(now_ms as int));
    let dead = sorted_map::filtered(tokens, delegation_tokens::is_dead(now_ms as int));
    vstd::set_lib::lemma_set_subset_finite(tokens.dom(), live.dom());
    vstd::set_lib::lemma_set_subset_finite(tokens.dom(), dead.dom());
    sorted_map::finite_sets_are_listed::<String>(live.dom());
    sorted_map::finite_sets_are_listed::<String>(dead.dom());
    let ids = sorted_map::sorted_keys::<String>(live.dom());
    let gone = sorted_map::sorted_keys::<String>(dead.dom());
    let listed = delegation_tokens::live_tokens(tokens, now_ms as int);
    assert forall|i: int| 0 <= i < listed.len() implies is_usable(#[trigger] listed[i], now_ms as int) by {
        assert(ids.to_set().contains(ids[i]));
    }
    if is_usable(tokens[id], now_ms as int) {
        assert(ids.to_set().contains(id));
        let i = choose|i: int| 0 <= i < ids.len() && ids[i] == id;
        assert(listed[i] == tokens[id]);
    } else {
        assert(gone.to_set().contains(id));
    }
    let cleaned = delegation_tokens::cleaned_ids(tokens, now_ms as int, limit);
    if cleaned.contains(id) {
        let i = choose|i: int| 0 <= i < cleaned.len() && cleaned[i] == id;
        assert(gone[i] == id);
        assert(gone.to_set().contains(id));
    }
}

/// What a renewal gives: a token that is usable, asked for by its owner, its requester or a renewer, is
/// good for the period asked for, at most the default one, from now on, but not beyond its greatest
/// age. A period that is not positive stands for the default one. Whoever else asks, or asks too late,
/// is refused.
pub proof fn renewals_prolong_tokens(
    tokens: TokensView,
    id: Seq<char>,
    principal: Seq<char>,
    now_ms: i64,
    requested_period_ms: i64,
    default_period_ms: i64,
)
    requires
        tokens.dom().finite(),
        delegation_tokens::sound(tokens),
        tokens.contains_key(id),
    ensures
        ({
            let token = tokens[id];
            let (after, answer) = delegation_tokens::renewed(
                tokens,
                token.hmac,
                principal,
                now_ms as int,
                requested_period_ms as int,
                default_period_ms as int,
            );
            let trusted = principal == token.owner_principal || principal == token.requester_principal || token.renewers.contains(principal);
            &&& answer is Ok <==> is_usable(token, now_ms as int) && trusted
            &&& !is_usable(token, now_ms as int) ==> answer == Err::<i64, ControlErrorView>(ControlErrorView::DelegationTokenExpired)
            &&& answer is Err ==> after == tokens
            &&& answer is Ok ==> {
                let until = after[id].expiry_timestamp_ms;
                let period = if 0 < requested_period_ms < default_period_ms {
                    requested_period_ms
                } else {
                    default_period_ms
                };
                &&& after == tokens.insert(id, DelegationTokenView { expiry_timestamp_ms: until, ..token })
                &&& answer == Ok::<i64, ControlErrorView>(until)
                &&& until <= token.max_timestamp_ms
                &&& until <= numbers::clamped_i64(now_ms + period)
                &&& until == token.max_timestamp_ms || until == numbers::clamped_i64(now_ms + period)
            }
        }),
{
    secrets_find_their_token(tokens, id);
}

/// What a planned end does: a negative period ends a token at once, usable or not; any other sets its
/// time to so long from now, but not beyond its greatest age.
pub proof fn ends_are_planned(tokens: TokensView, id: Seq<char>, principal: Seq<char>, now_ms: i64, period_ms: i64)
    requires
        tokens.dom().finite(),
        delegation_tokens::sound(tokens),
        tokens.contains_key(id),
    ensures
        ({
            let token = tokens[id];
            let (after, answer) = delegation_tokens::expired(tokens, token.hmac, principal, now_ms, period_ms as int);
            let trusted = principal == token.owner_principal || principal == token.requester_principal || token.renewers.contains(principal);
            &&& answer is Ok <==> trusted && (period_ms < 0 || is_usable(token, now_ms as int))
            &&& !trusted ==> answer == Err::<i64, ControlErrorView>(ControlErrorView::DelegationTokenOwnerMismatch)
            &&& answer is Err ==> after == tokens
            &&& answer is Ok && period_ms < 0 ==> after == tokens.remove(id) && answer == Ok::<i64, ControlErrorView>(now_ms)
            &&& answer is Ok && period_ms >= 0 ==> {
                let until = after[id].expiry_timestamp_ms;
                &&& after == tokens.insert(id, DelegationTokenView { expiry_timestamp_ms: until, ..token })
                &&& answer == Ok::<i64, ControlErrorView>(until)
                &&& until <= token.max_timestamp_ms
                &&& until <= numbers::clamped_i64(now_ms + period_ms)
                &&& until == token.max_timestamp_ms || until == numbers::clamped_i64(now_ms + period_ms)
            }
        }),
{
    secrets_find_their_token(tokens, id);
}

proof fn secrets_find_their_token(tokens: TokensView, id: Seq<char>)
    requires
        tokens.dom().finite(),
        delegation_tokens::sound(tokens),
        tokens.contains_key(id),
    ensures
        delegation_tokens::ids_of(tokens, tokens[id].hmac) == seq![id],
{
    let with = sorted_map::filtered(tokens, delegation_tokens::has_secret(tokens[id].hmac));
    assert(with.dom() =~= set![id]) by {
        assert forall|x: Seq<char>| with.dom().contains(x) == (x == id) by {
            if with.dom().contains(x) {
                assert(tokens.contains_key(x) && tokens[x].hmac == tokens[id].hmac);
            }
        }
    }
    sorted_map::finite_sets_are_listed::<String>(with.dom());
    let ids = delegation_tokens::ids_of(tokens, tokens[id].hmac);
    sorted_map::strictly_sorted_unique::<String>(ids);
    assert(ids.to_set().contains(id));
    assert(ids.to_set().len() == 1);
    assert(ids[0] == id) by {
        assert(ids.to_set().contains(ids[0]));
    }
    assert(ids =~= seq![id]);
}

/// A new token is stored just where neither its id nor its secret is taken.
pub proof fn tokens_are_unique(tokens: TokensView, token: DelegationTokenView)
    ensures
        ({
            let (after, answer) = delegation_tokens::created(tokens, token);
            let taken = exists|id: Seq<char>| #[trigger] tokens.contains_key(id) && (id == token.token_id || tokens[id].hmac == token.hmac);
            &&& answer is Err <==> taken
            &&& taken ==> after == tokens
            &&& !taken ==> after == tokens.insert(token.token_id, token)
        }),
{
    if tokens.contains_key(token.token_id) {
        assert(tokens.contains_key(token.token_id) && token.token_id == token.token_id);
    }
}

} // verus!
