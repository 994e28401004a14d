//! Credentials by which users prove who they are.

use crate::sorted_map;
use crate::sorted_map::{Duplicate, SortedMap};
use crate::text::lists_text;
use vstd::prelude::*;

verus! {

/// The credential of a user for a mechanism. What the mechanism checks stands here as bytes.
#[derive(Clone, PartialEq, Eq)]
pub struct ScramCredential {
    pub user: String,
    pub mechanism: i8,
    pub secret: Vec<u8>,
}

/// The model of [`ScramCredential`].
pub struct ScramCredentialView {
    pub user: Seq<char>,
    pub mechanism: i8,
    pub secret: Seq<u8>,
}

impl DeepView for ScramCredential {
    type V = ScramCredentialView;

    open spec fn deep_view(&self) -> ScramCredentialView {
        ScramCredentialView {
            user: self.user@,
            mechanism: self.mechanism,
            secret: self.secret.deep_view(),
        }
    }
}

impl Duplicate for ScramCredential {
    fn duplicate(&self) -> (r: Self) {
        ScramCredential {
            user: self.user.clone(),
            mechanism: self.mechanism,
            secret: self.secret.duplicate(),
        }
    }
}

/// A change of credentials.
pub enum ScramCredentialAlteration {
    /// Store this credential in place of the user's for its mechanism.
    Upsert(ScramCredential),
    /// Delete the user's credential for a mechanism.
    Delete { user: String, mechanism: i8 },
}

/// The model of [`ScramCredentialAlteration`].
pub enum ScramCredentialAlterationView {
    Upsert(ScramCredentialView),
    Delete { user: Seq<char>, mechanism: i8 },
}

impl DeepView for ScramCredentialAlteration {
    type V = ScramCredentialAlterationView;

    open spec fn deep_view(&self) -> ScramCredentialAlterationView {
        match self {
            ScramCredentialAlteration::Upsert(credential) => ScramCredentialAlterationView::Upsert(credential.deep_view()),
            ScramCredentialAlteration::Delete { user, mechanism } => ScramCredentialAlterationView::Delete {
                user: user@,
                mechanism: *mechanism,
            },
        }
    }
}

/// The credentials, by user and mechanism.
pub struct ScramCredentials {
    pub credentials: SortedMap<(String, i8), ScramCredential>,
}

/// The model of [`ScramCredentials`].
pub type CredentialsView = Map<(Seq<char>, i8), ScramCredentialView>;

impl DeepView for ScramCredentials {
    type V = CredentialsView;

    open spec fn deep_view(&self) -> CredentialsView {
        self.credentials.deep_view()
    }
}

/// Whether a credential is of one of the users that are asked for: of any, where none is named.
pub open spec fn is_asked(users: Option<Seq<Seq<char>>>) -> spec_fn((Seq<char>, i8), ScramCredentialView) -> bool {
    |key: (Seq<char>, i8), credential: ScramCredentialView| users is None || users->0.contains(credential.user)
}

/// The credentials of some users, by user and mechanism.
pub open spec fn described(credentials: CredentialsView, users: Option<Seq<Seq<char>>>) -> Seq<ScramCredentialView> {
    sorted_map::sorted_keys::<(String, i8)>(sorted_map::filtered(credentials, is_asked(users)).dom()).map_values(
        |key: (Seq<char>, i8)| credentials[key],
    )
}

/// The credentials after a list of changes, and the users of whom a credential was to be deleted that
/// they did not have.
pub open spec fn altered(credentials: CredentialsView, alterations: Seq<ScramCredentialAlterationView>) -> (CredentialsView, Map<Seq<char>, ()>)
    decreases alterations.len(),
{
    if alterations.len() == 0 {
        (credentials, Map::empty())
    } else {
        let (before, missing) = altered(credentials, alterations.drop_last());
        match alterations.last() {
            ScramCredentialAlterationView::Upsert(credential) => (
                before.insert((credential.user, credential.mechanism), credential),
                missing,
            ),
            ScramCredentialAlterationView::Delete { user, mechanism } => (
                before.remove((user, mechanism)),
                if before.contains_key((user, mechanism)) {
                    missing
                } else {
                    missing.insert(user, ())
                },
            ),
        }
    }
}

impl ScramCredentials {
    pub fn new() -> (r: Self)
        ensures
            r.deep_view() == CredentialsView::empty(),
    {
        ScramCredentials { credentials: SortedMap::new() }
    }

    /// Lists the credentials of some users, or of all.
    pub fn scram_credentials(&self, users: Option<&Vec<String>>) -> (r: Vec<ScramCredential>)
        ensures
            r.deep_view() == described(
                self.deep_view(),
                match users {
                    Some(users) => Some(users.deep_view()),
                    None => None,
                },
            ),
    {
        let ghost asked = match users {
            Some(users) => Some(users.deep_view()),
            None => None,
        };
        let ghost m = self.credentials.deep_view();
        let ghost chosen = sorted_map::filtered(m, is_asked(asked)).dom();
        let ghost p = is_asked(asked);
        let test = |key: &(String, i8), credential: &ScramCredential| -> (b: bool)
            ensures
                b == p(key.deep_view(), credential.deep_view()),
            {
                match users {
                    Some(users) => lists_text(users, credential.user.as_str()),
                    None => true,
                }
            };
        let keys = self.credentials.keys_where(test, Ghost(p));
        let ghost all = keys.deep_view();
        proof {
            sorted_map::sorted_keys_are::<(String, i8)>(all, chosen);
        }
        let mut r: Vec<ScramCredential> = Vec::new();
        let mut i: usize = 0;
        while i < keys.len()
            invariant
                i <= keys@.len(),
                all == keys.deep_view(),
                m == self.credentials.deep_view(),
                all.to_set() == chosen,
                chosen == sorted_map::filtered(m, is_asked(asked)).dom(),
                r@.len() == i,
                forall|j: int| 0 <= j < i ==> (#[trigger] r@[j]).deep_view() == m[all[j]],
            decreases keys@.len() - i,
        {
            assert(all[i as int] == keys@[i as int].deep_view());
            assert(all.to_set().contains(all[i as int]));
            r.push(self.credentials.get(&keys[i]).unwrap().duplicate());
            i = i + 1;
        }
        assert(r.deep_view() =~= all.map_values(|key: (Seq<char>, i8)| m[key]));
        r
    }

    /// Makes changes to credentials, and names the users who lacked one that was to be deleted.
    pub fn alter_scram_credentials(&mut self, alterations: &Vec<ScramCredentialAlteration>) -> (r: SortedMap<String, ()>)
        ensures
            (final(self).deep_view(), r.deep_view()) == altered(old(self).deep_view(), alterations.deep_view()),
    {
        let ghost before = self.deep_view();
        let ghost all = alterations.deep_view();
        let mut missing: SortedMap<String, ()> = SortedMap::new();
        let mut i: usize = 0;
        assert(all.take(0) =~= Seq::empty());
        while i < alterations.len()
            invariant
                i <= alterations@.len(),
                all == alterations.deep_view(),
                (self.deep_view(), missing.deep_view()) == altered(before, all.take(i as int)),
            decreases alterations@.len() - i,
        {
            proof {
                assert(all[i as int] == alterations@[i as int].deep_view());
                sorted_map::prefix_grows(all, i as int);
            }
            match &alterations[i] {
                ScramCredentialAlteration::Upsert(credential) => {
                    self.credentials.insert((credential.user.clone(), credential.mechanism), credential.duplicate());
                },
                ScramCredentialAlteration::Delete { user, mechanism } => {
                    let removed = self.credentials.remove(&(user.clone(), *mechanism));
                    if removed.is_none() {
                        missing.insert(user.clone(), ());
                    }
                },
            }
            i = i + 1;
        }
        assert(all.take(i as int) =~= all);
        missing
    }
}

/// Every credential stands under its own user and mechanism.
pub open spec fn keyed(credentials: CredentialsView) -> bool {
    forall|key: (Seq<char>, i8)| #[trigger] credentials.contains_key(key) ==> (credentials[key].user, credentials[key].mechanism) == key
}

/// Changes keep every credential under its own user and mechanism.
pub proof fn credentials_stay_keyed(credentials: CredentialsView, alterations: Seq<ScramCredentialAlterationView>)
    requires
        keyed(credentials),
    ensures
        keyed(altered(credentials, alterations).0),
    decreases alterations.len(),
{
    if alterations.len() > 0 {
        credentials_stay_keyed(credentials, alterations.drop_last());
    }
}

proof fn altered_is_finite(credentials: CredentialsView, alterations: Seq<ScramCredentialAlterationView>)
    requires
        credentials.dom().finite(),
    ensures
        altered(credentials, alterations).0.dom().finite(),
    decreases alterations.len(),
{
    if alterations.len() > 0 {
        altered_is_finite(credentials, alterations.drop_last());
    }
}

/// The credential that was stored last is found under its user, and one that was deleted last is not.
pub proof fn changed_credentials_are_found(
    credentials: CredentialsView,
    alterations: Seq<ScramCredentialAlterationView>,
    credential: ScramCredentialView,
)
    requires
        credentials.dom().finite(),
        keyed(credentials),
        alterations.len() > 0,
    ensures
        ({
            let found = described(altered(credentials, alterations).0, Some(seq![credential.user]));
            &&& alterations.last() == ScramCredentialAlterationView::Upsert(credential) ==> found.contains(credential)
            &&& alterations.last() == (ScramCredentialAlterationView::Delete { user: credential.user, mechanism: credential.mechanism })
                ==> !found.contains(credential)
        }),
{
    let after = altered(credentials, alterations).0;
    let users = Some(seq![credential.user]);
    let asked = sorted_map::filtered(after, is_asked(users));
    let key = (credential.user, credential.mechanism);
    altered_is_finite(credentials, alterations);
    credentials_stay_keyed(credentials, alterations);
    vstd::set_lib::lemma_set_subset_finite(after.dom(), asked.dom());
    sorted_map::finite_sets_are_listed::<(String, i8)>(asked.dom());
    let keys = sorted_map::sorted_keys::<(String, i8)>(asked.dom());
    let found = described(after, users);
    if alterations.last() == ScramCredentialAlterationView::Upsert(credential) {
        assert(seq![credential.user][0] == credential.user);
        assert(asked.contains_key(key));
        assert(keys.to_set().contains(key));
        let i = choose|i: int| 0 <= i < keys.len() && keys[i] == key;
        assert(found[i] == credential);
    }
    if alterations.last() == (ScramCredentialAlterationView::Delete { user: credential.user, mechanism: credential.mechanism }) {
        assert(!after.contains_key(key));
        if found.contains(credential) {
            let i = choose|i: int| 0 <= i < found.len() && found[i] == credential;
            assert(keys.to_set().contains(keys[i]));
            assert(after.contains_key(keys[i]));
        }
    }
}

} // verus!
