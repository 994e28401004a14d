//! Tokens by which one principal lets others act for it.

use crate::classic_barrier::same_bytes;
use crate::error;
use crate::error::{ControlError, ControlErrorView};
use crate::numbers;
use crate::numbers::saturating_sum;
use crate::sorted_map;
use crate::sorted_map::{duplicate_slice, Duplicate, SortedMap};
use crate::text;
use crate::text::{append_decimal, lists_text, quote, quote_texts, same_text};
use vstd::prelude::*;

verus! {

/// A token. It carries its secret, so its printed form is one that leaves the secret out.
#[derive(Clone, PartialEq, Eq)]
pub struct DelegationToken {
    pub token_id: String,
    pub owner_principal: String,
    pub requester_principal: String,
    pub renewers: Vec<String>,
    pub issue_timestamp_ms: i64,
    pub expiry_timestamp_ms: i64,
    pub max_timestamp_ms: i64,
    pub hmac: Vec<u8>,
}

/// The model of [`DelegationToken`].
pub struct DelegationTokenView {
    pub token_id: Seq<char>,
    pub owner_principal: Seq<char>,
    pub requester_principal: Seq<char>,
    pub renewers: Seq<Seq<char>>,
    pub issue_timestamp_ms: i64,
    pub expiry_timestamp_ms: i64,
    pub max_timestamp_ms: i64,
    pub hmac: Seq<u8>,
}

impl DeepView for DelegationToken {
    type V = DelegationTokenView;

    open spec fn deep_view(&self) -> DelegationTokenView {
        DelegationTokenView {
            token_id: self.token_id@,
            owner_principal: self.owner_principal@,
            requester_principal: self.requester_principal@,
            renewers: self.renewers.deep_view(),
            issue_timestamp_ms: self.issue_timestamp_ms,
            expiry_timestamp_ms: self.expiry_timestamp_ms,
            max_timestamp_ms: self.max_timestamp_ms,
            hmac: self.hmac.deep_view(),
        }
    }
}

impl Duplicate for DelegationToken {
    fn duplicate(&self) -> (r: Self) {
        DelegationToken {
            token_id: self.token_id.clone(),
            owner_principal: self.owner_principal.clone(),
            requester_principal: self.requester_principal.clone(),
            renewers: self.renewers.duplicate(),
            issue_timestamp_ms: self.issue_timestamp_ms,
            expiry_timestamp_ms: self.expiry_timestamp_ms,
            max_timestamp_ms: self.max_timestamp_ms,
            hmac: self.hmac.duplicate(),
        }
    }
}

/// Whether a principal may renew a token or end it.
pub open spec fn is_owner_or_renewer(token: DelegationTokenView, principal: Seq<char>) -> bool {
    token.owner_principal == principal || token.requester_principal == principal || token.renewers.contains(principal)
}

/// Whether a token's time is over.
pub open spec fn has_expired(token: DelegationTokenView, now_ms: int) -> bool {
    token.expiry_timestamp_ms < now_ms || token.max_timestamp_ms < now_ms
}

/// A token as it is printed: everything but its secret.
pub open spec fn printed(token: DelegationTokenView) -> Seq<char> {
    "DelegationToken { token_id: "@ + text::debug_text(token.token_id) + ", owner_principal: "@ + text::debug_text(token.owner_principal)
        + ", requester_principal: "@ + text::debug_text(token.requester_principal) + ", renewers: ["@ + text::quoted_texts(
        token.renewers,
        token.renewers.len(),
    ) + "], issue_timestamp_ms: "@ + text::decimal_text(token.issue_timestamp_ms as int) + ", expiry_timestamp_ms: "@
        + text::decimal_text(token.expiry_timestamp_ms as int) + ", max_timestamp_ms: "@ + text::decimal_text(token.max_timestamp_ms as int)
        + ", hmac: \"<redacted>\" }"@
}

/// The secret of a token does not show in its printed form: tokens that differ in nothing else are
/// printed alike.
pub proof fn secrets_are_not_printed(token: DelegationTokenView, hmac: Seq<u8>)
    ensures
        printed(DelegationTokenView { hmac, ..token }) == printed(token),
{
}

impl DelegationToken {
    /// Prints the token without its secret.
    pub fn print(&self) -> (r: String)
        ensures
            r@ == printed(self.deep_view()),
    {
        let mut r = "DelegationToken { token_id: ".to_owned();
        r.append(quote(self.token_id.as_str()).as_str());
        r.append(", owner_principal: ");
        r.append(quote(self.owner_principal.as_str()).as_str());
        r.append(", requester_principal: ");
        r.append(quote(self.requester_principal.as_str()).as_str());
        r.append(", renewers: [");
        r.append(quote_texts(&self.renewers).as_str());
        r.append("], issue_timestamp_ms: ");
        append_decimal(&mut r, self.issue_timestamp_ms);
        r.append(", expiry_timestamp_ms: ");
        append_decimal(&mut r, self.expiry_timestamp_ms);
        r.append(", max_timestamp_ms: ");
        append_decimal(&mut r, self.max_timestamp_ms);
        r.append(", hmac: \"<redacted>\" }");
        r
    }

    /// Whether a principal may renew the token or end it.
    pub fn owner_or_renewer(&self, principal: &str) -> (r: bool)
        ensures
            r == is_owner_or_renewer(self.deep_view(), principal@),
    {
        same_text(self.owner_principal.as_str(), principal) || same_text(self.requester_principal.as_str(), principal) || lists_text(
            &self.renewers,
            principal,
        )
    }

    /// Whether the token's time is over.
    pub fn is_expired(&self, now_ms: i64) -> (r: bool)
        ensures
            r == has_expired(self.deep_view(), now_ms as int),
    {
        self.expiry_timestamp_ms < now_ms || self.max_timestamp_ms < now_ms
    }
}

/// The tokens, by id.
pub struct DelegationTokens {
    pub tokens: SortedMap<String, DelegationToken>,
}

/// The model of [`DelegationTokens`].
pub type TokensView = Map<Seq<char>, DelegationTokenView>;

impl DeepView for DelegationTokens {
    type V = TokensView;

    open spec fn deep_view(&self) -> TokensView {
        self.tokens.deep_view()
    }
}

/// Whether a token has a secret.
pub open spec fn has_secret(hmac: Seq<u8>) -> spec_fn(Seq<char>, DelegationTokenView) -> bool {
    |id: Seq<char>, token: DelegationTokenView| token.hmac == hmac
}

/// The ids of the tokens with a secret, in order.
pub open spec fn ids_of(tokens: TokensView, hmac: Seq<u8>) -> Seq<Seq<char>> {
    sorted_map::sorted_keys::<String>(sorted_map::filtered(tokens, has_secret(hmac)).dom())
}

/// The tokens after one more has been stored.
pub open spec fn created(tokens: TokensView, token: DelegationTokenView) -> (TokensView, Result<(), ControlErrorView>) {
    if tokens.contains_key(token.token_id) || (exists|id: Seq<char>| #[trigger] tokens.contains_key(id) && tokens[id].hmac == token.hmac) {
        (tokens, Err(ControlErrorView::InvalidRequest("delegation token id or HMAC already exists"@)))
    } else {
        (tokens.insert(token.token_id, token), Ok(()))
    }
}

/// The token of an id, unless its time is over.
pub open spec fn token_with_id(tokens: TokensView, id: Seq<char>, now_ms: int) -> Option<DelegationTokenView> {
    if tokens.contains_key(id) && !has_expired(tokens[id], now_ms) {
        Some(tokens[id])
    } else {
        None
    }
}

/// Whether a token's time is not over.
pub open spec fn is_live(now_ms: int) -> spec_fn(Seq<char>, DelegationTokenView) -> bool {
    |id: Seq<char>, token: DelegationTokenView| !has_expired(token, now_ms)
}

/// Whether a token's time is over.
pub open spec fn is_dead(now_ms: int) -> spec_fn(Seq<char>, DelegationTokenView) -> bool {
    |id: Seq<char>, token: DelegationTokenView| has_expired(token, now_ms)
}

/// The tokens whose time is not over, by id.
pub open spec fn live_tokens(tokens: TokensView, now_ms: int) -> Seq<DelegationTokenView> {
    sorted_map::sorted_keys::<String>(sorted_map::filtered(tokens, is_live(now_ms)).dom()).map_values(|id: Seq<char>| tokens[id])
}

/// The earlier of two times.
pub open spec fn earlier(a: int, b: int) -> int {
    if a <= b {
        a
    } else {
        b
    }
}

/// A token that runs for a period from now on, but not past its greatest age.
pub open spec fn prolonged(token: DelegationTokenView, now_ms: int, period_ms: int) -> DelegationTokenView {
    DelegationTokenView {
        expiry_timestamp_ms: earlier(token.max_timestamp_ms as int, numbers::clamped_i64(now_ms + period_ms)) as i64,
        ..token
    }
}

/// What a request to renew a token does.
pub open spec fn renewed(
    tokens: TokensView,
    hmac: Seq<u8>,
    principal: Seq<char>,
    now_ms: int,
    requested_period_ms: int,
    default_period_ms: int,
) -> (TokensView, Result<i64, ControlErrorView>) {
    let ids = ids_of(tokens, hmac);
    if ids.len() == 0 {
        (tokens, Err(ControlErrorView::DelegationTokenNotFound))
    } else {
        let token = tokens[ids[0]];
        if has_expired(token, now_ms) {
            (tokens, Err(ControlErrorView::DelegationTokenExpired))
        } else if !is_owner_or_renewer(token, principal) {
            (tokens, Err(ControlErrorView::DelegationTokenOwnerMismatch))
        } else {
            let period_ms = if requested_period_ms > 0 {
                earlier(requested_period_ms, default_period_ms)
            } else {
                default_period_ms
            };
            let after = prolonged(token, now_ms, period_ms);
            (tokens.insert(ids[0], after), Ok(after.expiry_timestamp_ms))
        }
    }
}

/// What a request to end a token does: with a negative period at once, else after the period.
pub open spec fn expired(
    tokens: TokensView,
    hmac: Seq<u8>,
    principal: Seq<char>,
    now_ms: i64,
    expiry_period_ms: int,
) -> (TokensView, Result<i64, ControlErrorView>) {
    let ids = ids_of(tokens, hmac);
    if ids.len() == 0 {
        (tokens, Err(ControlErrorView::DelegationTokenNotFound))
    } else {
        let token = tokens[ids[0]];
        if !is_owner_or_renewer(token, principal) {
            (tokens, Err(ControlErrorView::DelegationTokenOwnerMismatch))
        } else if expiry_period_ms < 0 {
            (tokens.remove(ids[0]), Ok(now_ms))
        } else if has_expired(token, now_ms as int) {
            (tokens, Err(ControlErrorView::DelegationTokenExpired))
        } else {
            let after = prolonged(token, now_ms as int, expiry_period_ms);
            (tokens.insert(ids[0], after), Ok(after.expiry_timestamp_ms))
        }
    }
}

/// The ids of the tokens that a cleanup deletes: at most so many of those whose time is over.
pub open spec fn cleaned_ids(tokens: TokensView, now_ms: int, limit: usize) -> Seq<Seq<char>> {
    let dead = sorted_map::sorted_keys::<String>(sorted_map::filtered(tokens, is_dead(now_ms)).dom());
    if dead.len() <= limit {
        dead
    } else {
        dead.take(limit as int)
    }
}

fn earlier_of(a: i64, b: i64) -> (r: i64)
    ensures
        r == earlier(a as int, b as int),
{
    if a <= b {
        a
    } else {
        b
    }
}

fn prolong(token: &mut DelegationToken, now_ms: i64, period_ms: i64)
    ensures
        final(token).deep_view() == prolonged(old(token).deep_view(), now_ms as int, period_ms as int),
{
    token.expiry_timestamp_ms = earlier_of(token.max_timestamp_ms, saturating_sum(now_ms, period_ms));
}

impl DelegationTokens {
    pub fn new() -> (r: Self)
        ensures
            r.deep_view() == TokensView::empty(),
    {
        DelegationTokens { tokens: SortedMap::new() }
    }

    fn find_secret(&self, hmac: &[u8]) -> (r: Option<String>)
        ensures
            match r {
                Some(id) => ids_of(self.deep_view(), hmac@).len() > 0 && id@ == ids_of(self.deep_view(), hmac@)[0]
                    && self.deep_view().contains_key(id@),
                None => ids_of(self.deep_view(), hmac@).len() == 0,
            },
    {
        let ghost m = self.tokens.deep_view();
        let wanted = duplicate_slice(hmac);
        assert(wanted.deep_view() =~= hmac@);
        let test = |id: &String, token: &DelegationToken| -> (b: bool)
            ensures
                b == has_secret(hmac@)(id.deep_view(), token.deep_view()),
            { same_bytes(&token.hmac, &wanted) };
        let ids = self.tokens.keys_where(test, Ghost(has_secret(hmac@)));
        let ghost all = ids.deep_view();
        proof {
            sorted_map::sorted_keys_are::<String>(all, sorted_map::filtered(m, has_secret(hmac@)).dom());
        }
        if ids.len() == 0 {
            return None;
        }
        assert(all[0] == ids@[0].deep_view());
        assert(all.to_set().contains(all[0]));
        Some(ids[0].clone())
    }

    /// Stores a token.
    pub fn create_delegation_token(&mut self, token: DelegationToken) -> (r: Result<(), ControlError>)
        ensures
            (final(self).deep_view(), error::outcome(r)) == created(old(self).deep_view(), token.deep_view()),
    {
        let ghost m = self.tokens.deep_view();
        if self.tokens.contains_key(&token.token_id) {
            return Err(ControlError::InvalidRequest("delegation token id or HMAC already exists".to_owned()));
        }
        let test = |id: &String, other: &DelegationToken| -> (b: bool)
            ensures
                b == has_secret(token.deep_view().hmac)(id.deep_view(), other.deep_view()),
            { same_bytes(&other.hmac, &token.hmac) };
        let taken = self.tokens.any(test, Ghost(has_secret(token.deep_view().hmac)));
        if taken {
            proof {
                let id = choose|id: Seq<char>| #[trigger] m.contains_key(id) && has_secret(token.deep_view().hmac)(id, m[id]);
                assert(m.contains_key(id) && m[id].hmac == token.deep_view().hmac);
            }
            return Err(ControlError::InvalidRequest("delegation token id or HMAC already exists".to_owned()));
        }
        self.tokens.insert(token.token_id.clone(), token);
        Ok(())
    }

    /// Finds a token whose time is not over.
    pub fn delegation_token_by_id(&self, token_id: &str, now_ms: i64) -> (r: Option<DelegationToken>)
        ensures
            r.deep_view() == token_with_id(self.deep_view(), token_id@, now_ms as int),
    {
        match self.tokens.get(&token_id.to_owned()) {
            Some(token) => if token.is_expired(now_ms) {
                None
            } else {
                Some(token.duplicate())
            },
            None => None,
        }
    }

    /// Lists the tokens whose time is not over, by id.
    pub fn delegation_tokens(&self, now_ms: i64) -> (r: Vec<DelegationToken>)
        ensures
            r.deep_view() == live_tokens(self.deep_view(), now_ms as int),
    {
        let ghost m = self.tokens.deep_view();
        let ghost live = sorted_map::filtered(m, is_live(now_ms as int)).dom();
        let test = |id: &String, token: &DelegationToken| -> (b: bool)
            ensures
                b == is_live(now_ms as int)(id.deep_view(), token.deep_view()),
            { !token.is_expired(now_ms) };
        let ids = self.tokens.keys_where(test, Ghost(is_live(now_ms as int)));
        let ghost all = ids.deep_view();
        proof {
            sorted_map::sorted_keys_are::<String>(all, live);
        }
        let mut r: Vec<DelegationToken> = Vec::new();
        let mut i: usize = 0;
        while i < ids.len()
            invariant
                i <= ids@.len(),
                all == ids.deep_view(),
                m == self.tokens.deep_view(),
                all.to_set() == live,
                live == sorted_map::filtered(m, is_live(now_ms as int)).dom(),
                r@.len() == i,
                forall|j: int| 0 <= j < i ==> (#[trigger] r@[j]).deep_view() == m[all[j]],
            decreases ids@.len() - i,
        {
            assert(all[i as int] == ids@[i as int].deep_view());
            assert(all.to_set().contains(all[i as int]));
            r.push(self.tokens.get(&ids[i]).unwrap().duplicate());
            i = i + 1;
        }
        assert(r.deep_view() =~= all.map_values(|id: Seq<char>| m[id]));
        r
    }

    /// Lets a token run longer.
    pub fn renew_delegation_token(
        &mut self,
        hmac: &[u8],
        principal: &str,
        now_ms: i64,
        requested_period_ms: i64,
        default_period_ms: i64,
    ) -> (r: Result<i64, ControlError>)
        ensures
            (final(self).deep_view(), error::outcome(r)) == renewed(
                old(self).deep_view(),
                hmac@,
                principal@,
                now_ms as int,
                requested_period_ms as int,
                default_period_ms as int,
            ),
    {
        let id = match self.find_secret(hmac) {
            Some(id) => id,
            None => return Err(ControlError::DelegationTokenNotFound),
        };
        let mut token = self.tokens.get(&id).unwrap().duplicate();
        if token.is_expired(now_ms) {
            return Err(ControlError::DelegationTokenExpired);
        }
        if !token.owner_or_renewer(principal) {
            return Err(ControlError::DelegationTokenOwnerMismatch);
        }
        let period_ms: i64 = if requested_period_ms > 0 {
            earlier_of(requested_period_ms, default_period_ms)
        } else {
            default_period_ms
        };
        prolong(&mut token, now_ms, period_ms);
        let expiry_timestamp_ms: i64 = token.expiry_timestamp_ms;
        self.tokens.insert(id, token);
        Ok(expiry_timestamp_ms)
    }

    /// Ends a token, at once or after a period.
    pub fn expire_delegation_token(&mut self, hmac: &[u8], principal: &str, now_ms: i64, expiry_period_ms: i64) -> (r: Result<
        i64,
        ControlError,
    >)
        ensures
            (final(self).deep_view(), error::outcome(r)) == expired(
                old(self).deep_view(),
                hmac@,
                principal@,
                now_ms,
                expiry_period_ms as int,
            ),
    {
        let id = match self.find_secret(hmac) {
            Some(id) => id,
            None => return Err(ControlError::DelegationTokenNotFound),
        };
        let mut token = self.tokens.get(&id).unwrap().duplicate();
        if !token.owner_or_renewer(principal) {
            return Err(ControlError::DelegationTokenOwnerMismatch);
        }
        if expiry_period_ms < 0 {
            self.tokens.remove(&id);
            return Ok(now_ms);
        }
        if token.is_expired(now_ms) {
            return Err(ControlError::DelegationTokenExpired);
        }
        prolong(&mut token, now_ms, expiry_period_ms);
        let expiry_timestamp_ms: i64 = token.expiry_timestamp_ms;
        self.tokens.insert(id, token);
        Ok(expiry_timestamp_ms)
    }

    /// Deletes tokens whose time is over, at most so many, the first ids first.
    pub fn delete_expired_delegation_tokens(&mut self, now_ms: i64, limit: usize) -> (r: u64)
        ensures
            r == cleaned_ids(old(self).deep_view(), now_ms as int, limit).len(),
            final(self).deep_view() == old(self).deep_view().remove_keys(cleaned_ids(old(self).deep_view(), now_ms as int, limit).to_set()),
    {
        let ghost m = self.tokens.deep_view();
        let test = |id: &String, token: &DelegationToken| -> (b: bool)
            ensures
                b == is_dead(now_ms as int)(id.deep_view(), token.deep_view()),
            { token.is_expired(now_ms) };
        let ids = self.tokens.keys_where(test, Ghost(is_dead(now_ms as int)));
        let ghost all = ids.deep_view();
        proof {
            sorted_map::sorted_keys_are::<String>(all, sorted_map::filtered(m, is_dead(now_ms as int)).dom());
        }
        let mut i: usize = 0;
        assert(m =~= m.remove_keys(all.take(0).to_set()));
        while i < ids.len() && i < limit
            invariant
                i <= ids@.len(),
                i <= limit,
                all == ids.deep_view(),
                self.tokens.deep_view() == m.remove_keys(all.take(i as int).to_set()),
            decreases ids@.len() - i,
        {
            proof {
                assert(all[i as int] == ids@[i as int].deep_view());
                sorted_map::prefix_grows(all, i as int);
            }
            self.tokens.remove(&ids[i]);
            i = i + 1;
            assert(self.tokens.deep_view() =~= m.remove_keys(all.take(i as int).to_set()));
        }
        assert(all.take(i as int) =~= cleaned_ids(m, now_ms as int, limit));
        i as u64
    }
}

/// Every token stands under its own id, and no two have the same secret.
pub open spec fn sound(tokens: TokensView) -> bool {
    &&& forall|id: Seq<char>| #[trigger] tokens.contains_key(id) ==> tokens[id].token_id == id
    &&& forall|a: Seq<char>, b: Seq<char>| #[trigger] tokens.contains_key(a) && #[trigger] tokens.contains_key(b)
        && tokens[a].hmac == tokens[b].hmac ==> a == b
}

/// No operation gives two tokens the same id or the same secret.
pub proof fn tokens_stay_sound(
    tokens: TokensView,
    token: DelegationTokenView,
    hmac: Seq<u8>,
    principal: Seq<char>,
    now_ms: i64,
    period_ms: int,
    default_period_ms: int,
    limit: usize,
)
    requires
        tokens.dom().finite(),
        sound(tokens),
    ensures
        sound(created(tokens, token).0),
        sound(renewed(tokens, hmac, principal, now_ms as int, period_ms, default_period_ms).0),
        sound(expired(tokens, hmac, principal, now_ms, period_ms).0),
        sound(tokens.remove_keys(cleaned_ids(tokens, now_ms as int, limit).to_set())),
{
    if ids_of(tokens, hmac).len() > 0 {
        first_id_is_stored(tokens, hmac);
    }
}

/// A renewal or a planned end gives a token a time that lies no later than its greatest age, and
/// changes no other token.
pub proof fn tokens_never_outlive_their_age(
    tokens: TokensView,
    hmac: Seq<u8>,
    principal: Seq<char>,
    now_ms: i64,
    period_ms: int,
    default_period_ms: int,
    other: Seq<char>,
)
    requires
        tokens.dom().finite(),
        tokens.contains_key(other),
    ensures
        ({
            let (after, r) = renewed(tokens, hmac, principal, now_ms as int, period_ms, default_period_ms);
            &&& after.contains_key(other)
            &&& after[other] != tokens[other] ==> r == Ok::<i64, ControlErrorView>(after[other].expiry_timestamp_ms)
                && after[other].expiry_timestamp_ms <= after[other].max_timestamp_ms
                    && after[other].max_timestamp_ms == tokens[other].max_timestamp_ms
        }),
        ({
            let (after, r) = expired(tokens, hmac, principal, now_ms, period_ms);
            after.contains_key(other) && after[other] != tokens[other] ==> r == Ok::<i64, ControlErrorView>(after[other].expiry_timestamp_ms)
                && after[other].expiry_timestamp_ms <= after[other].max_timestamp_ms
                    && after[other].max_timestamp_ms == tokens[other].max_timestamp_ms
        }),
{
    if ids_of(tokens, hmac).len() > 0 {
        first_id_is_stored(tokens, hmac);
    }
}

/// Only the owner, the requester or a renewer of a token changes it.
pub proof fn strangers_change_nothing(
    tokens: TokensView,
    hmac: Seq<u8>,
    principal: Seq<char>,
    now_ms: i64,
    period_ms: int,
    default_period_ms: int,
)
    requires
        tokens.dom().finite(),
        forall|id: Seq<char>| #[trigger] tokens.contains_key(id) && tokens[id].hmac == hmac ==> !is_owner_or_renewer(tokens[id], principal),
    ensures
        renewed(tokens, hmac, principal, now_ms as int, period_ms, default_period_ms).0 == tokens,
        renewed(tokens, hmac, principal, now_ms as int, period_ms, default_period_ms).1 is Err,
        expired(tokens, hmac, principal, now_ms, period_ms).0 == tokens,
        expired(tokens, hmac, principal, now_ms, period_ms).1 is Err,
{
    if ids_of(tokens, hmac).len() > 0 {
        first_id_is_stored(tokens, hmac);
    }
}

/// A token that was accepted is found under its id until its time is over.
pub proof fn created_tokens_are_found(tokens: TokensView, token: DelegationTokenView, now_ms: int)
    requires
        created(tokens, token).1 is Ok,
    ensures
        token_with_id(created(tokens, token).0, token.token_id, now_ms) == (if has_expired(token, now_ms) {
            None
        } else {
            Some(token)
        }),
{
}

proof fn first_id_is_stored(tokens: TokensView, hmac: Seq<u8>)
    requires
        tokens.dom().finite(),
        ids_of(tokens, hmac).len() > 0,
    ensures
        tokens.contains_key(ids_of(tokens, hmac)[0]),
        tokens[ids_of(tokens, hmac)[0]].hmac == hmac,
{
    let found = sorted_map::filtered(tokens, has_secret(hmac)).dom();
    vstd::set_lib::lemma_set_subset_finite(tokens.dom(), found);
    sorted_map::finite_sets_are_listed::<String>(found);
    let ids = ids_of(tokens, hmac);
    assert(ids.to_set().contains(ids[0]));
}

} // verus!
