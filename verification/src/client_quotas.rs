//! Limits on what clients may use.

use crate::configs;
use crate::configs::apply_changes;
use crate::sorted_map;
use crate::sorted_map::{Duplicate, SortKey, SortedMap};
use crate::text;
use crate::text::{append_natural, Relation};
use vstd::prelude::*;
use vstd::utf8;

verus! {

pub const USER_ENTITY: &'static str = "user";

pub const CLIENT_ID_ENTITY: &'static str = "client-id";

pub const IP_ENTITY: &'static str = "ip";

pub const PRODUCER_BYTE_RATE: &'static str = "producer_byte_rate";

pub const CONSUMER_BYTE_RATE: &'static str = "consumer_byte_rate";

pub const REQUEST_PERCENTAGE: &'static str = "request_percentage";

pub const CONTROLLER_MUTATION_RATE: &'static str = "controller_mutation_rate";

pub const CONNECTION_CREATION_RATE: &'static str = "connection_creation_rate";

/// Whom a limit is for. A dimension that is missing does not count; one without a name is the default
/// of that dimension.
#[derive(Debug, Clone, PartialEq, Eq, Hash, PartialOrd, Ord)]
pub struct ClientQuotaEntity {
    pub user: Option<Option<String>>,
    pub client_id: Option<Option<String>>,
    pub ip: Option<Option<String>>,
}

/// The model of [`ClientQuotaEntity`].
pub struct ClientQuotaEntityView {
    pub user: Option<Option<Seq<char>>>,
    pub client_id: Option<Option<Seq<char>>>,
    pub ip: Option<Option<Seq<char>>>,
}

impl DeepView for ClientQuotaEntity {
    type V = ClientQuotaEntityView;

    open spec fn deep_view(&self) -> ClientQuotaEntityView {
        ClientQuotaEntityView {
            user: self.user.deep_view(),
            client_id: self.client_id.deep_view(),
            ip: self.ip.deep_view(),
        }
    }
}

impl Duplicate for ClientQuotaEntity {
    fn duplicate(&self) -> (r: Self) {
        ClientQuotaEntity {
            user: self.user.duplicate(),
            client_id: self.client_id.duplicate(),
            ip: self.ip.duplicate(),
        }
    }
}

/// Entities are ordered by user, client and address.
pub type EntityOrder = ((Option<Option<String>>, Option<Option<String>>), Option<Option<String>>);

/// The model of [`EntityOrder`].
pub type EntityOrderView = ((Option<Option<Seq<char>>>, Option<Option<Seq<char>>>), Option<Option<Seq<char>>>);

/// Where an entity stands in the order of entities.
pub open spec fn order_of(entity: ClientQuotaEntityView) -> EntityOrderView {
    ((entity.user, entity.client_id), entity.ip)
}

impl SortKey for ClientQuotaEntity {
    open spec fn before(a: ClientQuotaEntityView, b: ClientQuotaEntityView) -> bool {
        EntityOrder::before(order_of(a), order_of(b))
    }

    proof fn irreflexive(a: ClientQuotaEntityView) {
        EntityOrder::irreflexive(order_of(a));
    }

    proof fn transitive(a: ClientQuotaEntityView, b: ClientQuotaEntityView, c: ClientQuotaEntityView) {
        EntityOrder::transitive(order_of(a), order_of(b), order_of(c));
    }

    proof fn total(a: ClientQuotaEntityView, b: ClientQuotaEntityView) {
        EntityOrder::total(order_of(a), order_of(b));
    }

    fn compare(&self, other: &Self) -> (r: Relation) {
        match self.user.compare(&other.user) {
            Relation::Before => Relation::Before,
            Relation::After => Relation::After,
            Relation::Same => match self.client_id.compare(&other.client_id) {
                Relation::Before => Relation::Before,
                Relation::After => Relation::After,
                Relation::Same => self.ip.compare(&other.ip),
            },
        }
    }
}

/// A dimension, if an entity has it, under its name.
pub open spec fn listed(name: Seq<char>, value: Option<Option<Seq<char>>>) -> Seq<(Seq<char>, Option<Seq<char>>)> {
    match value {
        None => Seq::empty(),
        Some(value) => seq![(name, value)],
    }
}

/// The dimensions that an entity has, each under its name.
pub open spec fn dimensions_of(entity: ClientQuotaEntityView) -> Seq<(Seq<char>, Option<Seq<char>>)> {
    listed(USER_ENTITY@, entity.user) + listed(CLIENT_ID_ENTITY@, entity.client_id) + listed(IP_ENTITY@, entity.ip)
}

/// How many bytes a text takes in UTF-8.
pub open spec fn byte_count(value: Seq<char>) -> usize {
    utf8::encode_utf8(value).len() as usize
}

/// A dimension as it is written in a storage key: behind its letter a dash where it is missing, a
/// `d` where it is the default, and else its length in bytes, a colon and its name.
pub open spec fn encoded(marker: char, value: Option<Option<Seq<char>>>) -> Seq<char> {
    (match value {
        None => seq![marker, '-'],
        Some(None) => seq![marker, 'd'],
        Some(Some(name)) => seq![marker] + text::natural_text(byte_count(name) as nat) + seq![':'] + name,
    }).push('|')
}

/// The text under which the limits of an entity are stored.
pub open spec fn key_of(entity: ClientQuotaEntityView) -> Seq<char> {
    encoded('u', entity.user) + encoded('c', entity.client_id) + encoded('i', entity.ip)
}

fn add_dimension<'a>(dimensions: &mut Vec<(&'static str, Option<&'a str>)>, name: &'static str, value: &'a Option<Option<String>>)
    ensures
        final(dimensions).deep_view() == old(dimensions).deep_view() + listed(name@, value.deep_view()),
{
    let ghost before = dimensions.deep_view();
    match value {
        None => {
            assert(dimensions.deep_view() =~= before + listed(name@, value.deep_view()));
        },
        Some(None) => {
            dimensions.push((name, None));
            assert(dimensions.deep_view() =~= before + listed(name@, value.deep_view()));
        },
        Some(Some(given)) => {
            dimensions.push((name, Some(given.as_str())));
            assert(dimensions.deep_view() =~= before + listed(name@, value.deep_view()));
        },
    }
}

fn encode(marker: &str, value: &Option<Option<String>>, output: &mut String)
    requires
        marker@.len() == 1,
    ensures
        final(output)@ == old(output)@ + encoded(marker@[0], value.deep_view()),
{
    proof {
        reveal_strlit("-");
        reveal_strlit("d");
        reveal_strlit(":");
        reveal_strlit("|");
    }
    output.append(marker);
    match value {
        None => output.append("-"),
        Some(None) => output.append("d"),
        Some(Some(name)) => {
            append_natural(output, name.as_str().len() as u128);
            output.append(":");
            output.append(name.as_str());
        },
    }
    output.append("|");
    assert(output@ =~= old(output)@ + encoded(marker@[0], value.deep_view()));
}

impl ClientQuotaEntity {
    /// How many dimensions the entity has.
    pub fn dimension_count(&self) -> (r: usize)
        ensures
            r == dimensions_of(self.deep_view()).len(),
    {
        let mut r: usize = 0;
        if self.user.is_some() {
            r = r + 1;
        }
        if self.client_id.is_some() {
            r = r + 1;
        }
        if self.ip.is_some() {
            r = r + 1;
        }
        r
    }

    /// The dimensions that the entity has, each under its name.
    pub fn dimensions(&self) -> (r: Vec<(&'static str, Option<&str>)>)
        ensures
            r.deep_view() == dimensions_of(self.deep_view()),
    {
        let mut r: Vec<(&'static str, Option<&str>)> = Vec::new();
        assert(r.deep_view() =~= Seq::empty());
        add_dimension(&mut r, USER_ENTITY, &self.user);
        add_dimension(&mut r, CLIENT_ID_ENTITY, &self.client_id);
        add_dimension(&mut r, IP_ENTITY, &self.ip);
        assert(r.deep_view() =~= dimensions_of(self.deep_view()));
        r
    }

    /// The text under which the limits of the entity are stored.
    pub fn storage_key(&self) -> (r: String)
        ensures
            r@ == key_of(self.deep_view()),
    {
        let mut key = String::new();
        proof {
            reveal_strlit("u");
            reveal_strlit("c");
            reveal_strlit("i");
        }
        encode("u", &self.user, &mut key);
        encode("c", &self.client_id, &mut key);
        encode("i", &self.ip, &mut key);
        assert(key@ =~= key_of(self.deep_view()));
        key
    }
}

/// A dimension as it is stored: whether an entity has it, and its name if it is not the default.
pub fn dimension(present: bool, value: Option<String>) -> (r: Option<Option<String>>)
    ensures
        r.deep_view() == (if present {
            Some(value.deep_view())
        } else {
            None
        }),
{
    if present {
        Some(value)
    } else {
        None
    }
}

/// The limits of an entity, by name. Each value stands here as the bits of its binary64 form.
pub struct ClientQuota {
    pub entity: ClientQuotaEntity,
    pub values: SortedMap<String, u64>,
}

/// The model of [`ClientQuota`].
pub struct ClientQuotaView {
    pub entity: ClientQuotaEntityView,
    pub values: Map<Seq<char>, u64>,
}

impl DeepView for ClientQuota {
    type V = ClientQuotaView;

    open spec fn deep_view(&self) -> ClientQuotaView {
        ClientQuotaView {
            entity: self.entity.deep_view(),
            values: self.values.deep_view(),
        }
    }
}

impl Duplicate for ClientQuota {
    fn duplicate(&self) -> (r: Self) {
        ClientQuota {
            entity: self.entity.duplicate(),
            values: self.values.duplicate(),
        }
    }
}

/// Changes to the limits of an entity: nothing removes a limit, a value sets it.
pub struct ClientQuotaAlteration {
    pub entity: ClientQuotaEntity,
    pub ops: SortedMap<String, Option<u64>>,
}

/// The model of [`ClientQuotaAlteration`].
pub struct ClientQuotaAlterationView {
    pub entity: ClientQuotaEntityView,
    pub ops: Map<Seq<char>, Option<u64>>,
}

impl DeepView for ClientQuotaAlteration {
    type V = ClientQuotaAlterationView;

    open spec fn deep_view(&self) -> ClientQuotaAlterationView {
        ClientQuotaAlterationView {
            entity: self.entity.deep_view(),
            ops: self.ops.deep_view(),
        }
    }
}

/// The stored limits, by entity. An entity without limits is not listed.
pub struct ClientQuotas {
    pub quotas: SortedMap<ClientQuotaEntity, SortedMap<String, u64>>,
}

/// The model of [`ClientQuotas`].
pub type ClientQuotasView = Map<ClientQuotaEntityView, Map<Seq<char>, u64>>;

impl DeepView for ClientQuotas {
    type V = ClientQuotasView;

    open spec fn deep_view(&self) -> ClientQuotasView {
        self.quotas.deep_view()
    }
}

/// The limits of an entity.
pub open spec fn limits_of(quotas: ClientQuotasView, entity: ClientQuotaEntityView) -> Map<Seq<char>, u64> {
    if quotas.contains_key(entity) {
        quotas[entity]
    } else {
        Map::empty()
    }
}

/// The limits after changes to those of one entity.
pub open spec fn altered(quotas: ClientQuotasView, alteration: ClientQuotaAlterationView) -> ClientQuotasView {
    let limits = configs::changed(limits_of(quotas, alteration.entity), alteration.ops);
    if limits == Map::<Seq<char>, u64>::empty() {
        quotas.remove(alteration.entity)
    } else {
        quotas.insert(alteration.entity, limits)
    }
}

/// The limits after a list of changes.
pub open spec fn all_altered(quotas: ClientQuotasView, alterations: Seq<ClientQuotaAlterationView>) -> ClientQuotasView
    decreases alterations.len(),
{
    if alterations.len() == 0 {
        quotas
    } else {
        altered(all_altered(quotas, alterations.drop_last()), alterations.last())
    }
}

impl ClientQuotas {
    pub fn new() -> (r: Self)
        ensures
            r.deep_view() == ClientQuotasView::empty(),
    {
        ClientQuotas { quotas: SortedMap::new() }
    }

    /// Lists the limits by entity, in order.
    pub fn client_quotas(&self) -> (r: Vec<ClientQuota>)
        ensures
            r.deep_view() == sorted_map::sorted_keys::<ClientQuotaEntity>(self.deep_view().dom()).map_values(
                |entity: ClientQuotaEntityView| ClientQuotaView { entity, values: self.deep_view()[entity] },
            ),
    {
        let entities = self.quotas.keys();
        let ghost all = entities.deep_view();
        let ghost m = self.quotas.deep_view();
        proof {
            sorted_map::sorted_keys_are::<ClientQuotaEntity>(all, m.dom());
        }
        let mut r: Vec<ClientQuota> = Vec::new();
        let mut i: usize = 0;
        while i < entities.len()
            invariant
                i <= entities@.len(),
                all == entities.deep_view(),
                m == self.quotas.deep_view(),
                all.to_set() == m.dom(),
                r@.len() == i,
                forall|j: int|
                    0 <= j < i ==> (#[trigger] r@[j]).deep_view() == (ClientQuotaView { entity: all[j], values: m[all[j]] }),
            decreases entities@.len() - i,
        {
            assert(all[i as int] == entities@[i as int].deep_view());
            assert(all.to_set().contains(all[i as int]));
            let values = self.quotas.get(&entities[i]).unwrap().duplicate();
            r.push(ClientQuota { entity: entities[i].duplicate(), values });
            i = i + 1;
        }
        assert(r.deep_view() =~= all.map_values(|entity: ClientQuotaEntityView| ClientQuotaView { entity, values: m[entity] }));
        r
    }

    /// Makes changes to limits, one entity after another.
    pub fn alter_client_quotas(&mut self, alterations: &[ClientQuotaAlteration])
        ensures
            final(self).deep_view() == all_altered(old(self).deep_view(), sorted_map::models(alterations@)),
    {
        let ghost before = self.deep_view();
        let ghost all = sorted_map::models(alterations@);
        let mut i: usize = 0;
        assert(all.take(0) =~= Seq::empty());
        while i < alterations.len()
            invariant
                i <= alterations@.len(),
                all == sorted_map::models(alterations@),
                self.deep_view() == all_altered(before, all.take(i as int)),
            decreases alterations@.len() - i,
        {
            let alteration = &alterations[i];
            proof {
                assert(all[i as int] == alteration.deep_view());
                sorted_map::prefix_grows(all, i as int);
            }
            let mut limits = match self.quotas.get(&alteration.entity) {
                Some(limits) => limits.duplicate(),
                None => SortedMap::new(),
            };
            apply_changes(&mut limits, &alteration.ops);
            if limits.is_empty() {
                assert(limits.deep_view() =~= Map::empty());
                self.quotas.remove(&alteration.entity);
            } else {
                self.quotas.insert(alteration.entity.duplicate(), limits);
            }
            i = i + 1;
        }
        assert(all.take(i as int) =~= all);
    }
}

proof fn digits_are_no_colons(n: nat)
    ensures
        text::natural_text(n).len() > 0,
        forall|i: int| 0 <= i < text::natural_text(n).len() ==> #[trigger] text::natural_text(n)[i] != ':'
            && text::natural_text(n)[i] != '-' && text::natural_text(n)[i] != 'd',
    decreases n,
{
    if n >= 10 {
        digits_are_no_colons(n / 10);
    }
}

proof fn natural_texts_differ(a: nat, b: nat)
    requires
        text::natural_text(a) == text::natural_text(b),
    ensures
        a == b,
    decreases a,
{
    let x = text::natural_text(a);
    let y = text::natural_text(b);
    digits_are_no_colons(a / 10);
    digits_are_no_colons(b / 10);
    if a >= 10 && b >= 10 {
        assert(x.drop_last() =~= text::natural_text(a / 10));
        assert(y.drop_last() =~= text::natural_text(b / 10));
        natural_texts_differ(a / 10, b / 10);
        assert(x.last() == text::digit((a % 10) as int));
        assert(y.last() == text::digit((b % 10) as int));
    } else if a < 10 && b < 10 {
        assert(x[0] == text::digit(a as int));
        assert(y[0] == text::digit(b as int));
    } else if a < 10 {
        assert(x.len() == 1 && y.len() > 1);
    } else {
        assert(y.len() == 1 && x.len() > 1);
    }
}

proof fn longer_texts_take_more_bytes(text: Seq<char>, n: int)
    requires
        0 <= n < text.len(),
    ensures
        utf8::encode_utf8(text.take(n)).len() < utf8::encode_utf8(text).len(),
    decreases n,
{
    if n == 0 {
        assert(text.take(0) =~= Seq::empty());
    } else {
        assert(text.take(n).drop_first() =~= text.drop_first().take(n - 1));
        longer_texts_take_more_bytes(text.drop_first(), n - 1);
    }
}

/// Whether the bytes of a dimension can be counted.
pub open spec fn fits(value: Option<Option<Seq<char>>>) -> bool {
    value matches Some(Some(name)) ==> utf8::encode_utf8(name).len() <= usize::MAX
}

proof fn encodings_end_where_they_end(marker: char, a: Option<Option<Seq<char>>>, x: Seq<char>, b: Option<Option<Seq<char>>>, y: Seq<char>)
    requires
        encoded(marker, a) + x == encoded(marker, b) + y,
        fits(a),
        fits(b),
    ensures
        a == b,
        x == y,
{
    let s = encoded(marker, a) + x;
    let t = encoded(marker, b) + y;
    if let Some(Some(name)) = a {
        let digits = text::natural_text(byte_count(name) as nat);
        digits_are_no_colons(byte_count(name) as nat);
        assert(s[1] == digits[0]);
        if let Some(Some(other)) = b {
            let others = text::natural_text(byte_count(other) as nat);
            digits_are_no_colons(byte_count(other) as nat);
            assert(s[1 + digits.len() as int] == ':');
            assert(t[1 + others.len() as int] == ':');
            if digits.len() < others.len() {
                assert(t[1 + digits.len() as int] == others[digits.len() as int]);
            }
            if others.len() < digits.len() {
                assert(s[1 + others.len() as int] == digits[others.len() as int]);
            }
            assert forall|i: int| 0 <= i < digits.len() implies digits[i] == others[i] by {
                assert(s[1 + i] == digits[i]);
                assert(t[1 + i] == others[i]);
            }
            assert(digits =~= others);
            natural_texts_differ(byte_count(name) as nat, byte_count(other) as nat);
            let from = digits.len() as int + 2;
            assert forall|i: int| 0 <= i < name.len() && i < other.len() implies name[i] == other[i] by {
                assert(s[from + i] == name[i]);
                assert(t[from + i] == other[i]);
            }
            if name.len() < other.len() {
                assert(other.take(name.len() as int) =~= name);
                longer_texts_take_more_bytes(other, name.len() as int);
            }
            if other.len() < name.len() {
                assert(name.take(other.len() as int) =~= other);
                longer_texts_take_more_bytes(name, other.len() as int);
            }
            assert(name =~= other);
        } else {
            assert(t[1] == '-' || t[1] == 'd');
        }
    } else {
        assert(s[1] == '-' || s[1] == 'd');
        if let Some(Some(other)) = b {
            let others = text::natural_text(byte_count(other) as nat);
            digits_are_no_colons(byte_count(other) as nat);
            assert(t[1] == others[0]);
        }
        assert(s[1] == (if a is None { '-' } else { 'd' }));
        assert(t[1] == (if b is None { '-' } else { 'd' }));
    }
    assert(a == b);
    let n = encoded(marker, a).len();
    assert(s.skip(n as int) =~= x);
    assert(t.skip(n as int) =~= y);
}

/// No two entities are stored under the same text.
pub proof fn storage_keys_differ(a: ClientQuotaEntityView, b: ClientQuotaEntityView)
    requires
        key_of(a) == key_of(b),
        fits(a.user) && fits(a.client_id) && fits(a.ip),
        fits(b.user) && fits(b.client_id) && fits(b.ip),
    ensures
        a == b,
{
    let e: Seq<char> = Seq::empty();
    assert(key_of(a) =~= encoded('u', a.user) + (encoded('c', a.client_id) + (encoded('i', a.ip) + e)));
    assert(key_of(b) =~= encoded('u', b.user) + (encoded('c', b.client_id) + (encoded('i', b.ip) + e)));
    encodings_end_where_they_end(
        'u',
        a.user,
        encoded('c', a.client_id) + (encoded('i', a.ip) + e),
        b.user,
        encoded('c', b.client_id) + (encoded('i', b.ip) + e),
    );
    encodings_end_where_they_end('c', a.client_id, encoded('i', a.ip) + e, b.client_id, encoded('i', b.ip) + e);
    encodings_end_where_they_end('i', a.ip, e, b.ip, e);
}

/// No entity is listed without limits.
pub open spec fn no_empty_entities(quotas: ClientQuotasView) -> bool {
    forall|entity: ClientQuotaEntityView| #[trigger] quotas.contains_key(entity) ==> quotas[entity] != Map::<Seq<char>, u64>::empty()
}

/// A change of an entity's limits is read back from that entity and from no other, and leaves no
/// entity listed that has no limits.
pub proof fn changed_limits_are_read_back(quotas: ClientQuotasView, alteration: ClientQuotaAlterationView, other: ClientQuotaEntityView)
    requires
        no_empty_entities(quotas),
    ensures
        ({
            let after = altered(quotas, alteration);
            &&& limits_of(after, alteration.entity) == configs::changed(limits_of(quotas, alteration.entity), alteration.ops)
            &&& other != alteration.entity ==> limits_of(after, other) == limits_of(quotas, other)
            &&& no_empty_entities(after)
        }),
{
}

} // verus!
