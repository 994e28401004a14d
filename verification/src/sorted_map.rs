//! A map that keeps its entries in key order.

use crate::text;
use crate::text::{compare_text, Relation};
use vstd::prelude::*;

verus! {

/// A value that can be copied with its model kept.
pub trait Duplicate: DeepView + Sized {
    fn duplicate(&self) -> (r: Self)
        ensures
            r.deep_view() == self.deep_view(),
    ;
}

impl Duplicate for String {
    fn duplicate(&self) -> (r: Self) {
        self.clone()
    }
}

impl Duplicate for bool {
    fn duplicate(&self) -> (r: Self) {
        *self
    }
}

impl Duplicate for u8 {
    fn duplicate(&self) -> (r: Self) {
        *self
    }
}

impl Duplicate for i8 {
    fn duplicate(&self) -> (r: Self) {
        *self
    }
}

impl Duplicate for i16 {
    fn duplicate(&self) -> (r: Self) {
        *self
    }
}

impl Duplicate for i32 {
    fn duplicate(&self) -> (r: Self) {
        *self
    }
}

impl Duplicate for i64 {
    fn duplicate(&self) -> (r: Self) {
        *self
    }
}

impl Duplicate for u64 {
    fn duplicate(&self) -> (r: Self) {
        *self
    }
}

impl Duplicate for usize {
    fn duplicate(&self) -> (r: Self) {
        *self
    }
}

impl Duplicate for u128 {
    fn duplicate(&self) -> (r: Self) {
        *self
    }
}

impl Duplicate for () {
    fn duplicate(&self) -> (r: Self) {
    }
}

impl<A: Duplicate, B: Duplicate> Duplicate for (A, B) {
    fn duplicate(&self) -> (r: Self) {
        (self.0.duplicate(), self.1.duplicate())
    }
}

impl<T: Duplicate> Duplicate for Option<T> {
    fn duplicate(&self) -> (r: Self) {
        match self {
            Some(value) => Some(value.duplicate()),
            None => None,
        }
    }
}

impl<T: Duplicate> Duplicate for Vec<T> {
    fn duplicate(&self) -> (r: Self) {
        duplicate_slice(self.as_slice())
    }
}

/// The models of the items of a sequence, in order.
pub open spec fn models<T: DeepView>(items: Seq<T>) -> Seq<T::V> {
    Seq::new(items.len(), |i: int| items[i].deep_view())
}

/// Copies the items of a slice.
pub fn duplicate_slice<T: Duplicate>(items: &[T]) -> (r: Vec<T>)
    ensures
        r.deep_view() == models(items@),
{
    let mut r: Vec<T> = Vec::new();
    let mut i: usize = 0;
    while i < items.len()
        invariant
            i <= items@.len(),
            r@.len() == i,
            forall|j: int| 0 <= j < i ==> (#[trigger] r@[j]).deep_view() == items@[j].deep_view(),
        decreases items@.len() - i,
    {
        r.push(items[i].duplicate());
        i = i + 1;
    }
    assert(r.deep_view() =~= models(items@));
    r
}

/// A key with a strict total order on its model.
pub trait SortKey: Duplicate {
    spec fn before(a: Self::V, b: Self::V) -> bool;

    proof fn irreflexive(a: Self::V)
        ensures
            !Self::before(a, a),
    ;

    proof fn transitive(a: Self::V, b: Self::V, c: Self::V)
        requires
            Self::before(a, b),
            Self::before(b, c),
        ensures
            Self::before(a, c),
    ;

    proof fn total(a: Self::V, b: Self::V)
        ensures
            a == b || Self::before(a, b) || Self::before(b, a),
    ;

    fn compare(&self, other: &Self) -> (r: Relation)
        ensures
            match r {
                Relation::Before => Self::before(self.deep_view(), other.deep_view()),
                Relation::Same => self.deep_view() == other.deep_view(),
                Relation::After => Self::before(other.deep_view(), self.deep_view()),
            },
    ;
}

impl SortKey for String {
    open spec fn before(a: Seq<char>, b: Seq<char>) -> bool {
        text::text_before(a, b)
    }

    proof fn irreflexive(a: Seq<char>) {
        text::text_before_irreflexive(a);
    }

    proof fn transitive(a: Seq<char>, b: Seq<char>, c: Seq<char>) {
        text::text_before_transitive(a, b, c);
    }

    proof fn total(a: Seq<char>, b: Seq<char>) {
        text::text_before_total(a, b);
    }

    fn compare(&self, other: &Self) -> (r: Relation) {
        compare_text(self.as_str(), other.as_str())
    }
}

impl SortKey for i64 {
    open spec fn before(a: i64, b: i64) -> bool {
        a < b
    }

    proof fn irreflexive(a: i64) {
    }

    proof fn transitive(a: i64, b: i64, c: i64) {
    }

    proof fn total(a: i64, b: i64) {
    }

    fn compare(&self, other: &Self) -> (r: Relation) {
        if *self == *other {
            Relation::Same
        } else if *self < *other {
            Relation::Before
        } else {
            Relation::After
        }
    }
}

impl SortKey for i8 {
    open spec fn before(a: i8, b: i8) -> bool {
        a < b
    }

    proof fn irreflexive(a: i8) {
    }

    proof fn transitive(a: i8, b: i8, c: i8) {
    }

    proof fn total(a: i8, b: i8) {
    }

    fn compare(&self, other: &Self) -> (r: Relation) {
        if *self == *other {
            Relation::Same
        } else if *self < *other {
            Relation::Before
        } else {
            Relation::After
        }
    }
}

impl SortKey for i32 {
    open spec fn before(a: i32, b: i32) -> bool {
        a < b
    }

    proof fn irreflexive(a: i32) {
    }

    proof fn transitive(a: i32, b: i32, c: i32) {
    }

    proof fn total(a: i32, b: i32) {
    }

    fn compare(&self, other: &Self) -> (r: Relation) {
        if *self == *other {
            Relation::Same
        } else if *self < *other {
            Relation::Before
        } else {
            Relation::After
        }
    }
}

impl SortKey for u128 {
    open spec fn before(a: u128, b: u128) -> bool {
        a < b
    }

    proof fn irreflexive(a: u128) {
    }

    proof fn transitive(a: u128, b: u128, c: u128) {
    }

    proof fn total(a: u128, b: u128) {
    }

    fn compare(&self, other: &Self) -> (r: Relation) {
        if *self == *other {
            Relation::Same
        } else if *self < *other {
            Relation::Before
        } else {
            Relation::After
        }
    }
}

impl SortKey for usize {
    open spec fn before(a: usize, b: usize) -> bool {
        a < b
    }

    proof fn irreflexive(a: usize) {
    }

    proof fn transitive(a: usize, b: usize, c: usize) {
    }

    proof fn total(a: usize, b: usize) {
    }

    fn compare(&self, other: &Self) -> (r: Relation) {
        if *self == *other {
            Relation::Same
        } else if *self < *other {
            Relation::Before
        } else {
            Relation::After
        }
    }
}

impl SortKey for u64 {
    open spec fn before(a: u64, b: u64) -> bool {
        a < b
    }

    proof fn irreflexive(a: u64) {
    }

    proof fn transitive(a: u64, b: u64, c: u64) {
    }

    proof fn total(a: u64, b: u64) {
    }

    fn compare(&self, other: &Self) -> (r: Relation) {
        if *self == *other {
            Relation::Same
        } else if *self < *other {
            Relation::Before
        } else {
            Relation::After
        }
    }
}

/// Pairs are ordered by the first part, then by the second.
impl<A: SortKey, B: SortKey> SortKey for (A, B) {
    open spec fn before(a: (A::V, B::V), b: (A::V, B::V)) -> bool {
        A::before(a.0, b.0) || (a.0 == b.0 && B::before(a.1, b.1))
    }

    proof fn irreflexive(a: (A::V, B::V)) {
        A::irreflexive(a.0);
        B::irreflexive(a.1);
    }

    proof fn transitive(a: (A::V, B::V), b: (A::V, B::V), c: (A::V, B::V)) {
        if A::before(a.0, b.0) && A::before(b.0, c.0) {
            A::transitive(a.0, b.0, c.0);
        }
        if B::before(a.1, b.1) && B::before(b.1, c.1) {
            B::transitive(a.1, b.1, c.1);
        }
    }

    proof fn total(a: (A::V, B::V), b: (A::V, B::V)) {
        A::total(a.0, b.0);
        B::total(a.1, b.1);
    }

    fn compare(&self, other: &Self) -> (r: Relation) {
        match self.0.compare(&other.0) {
            Relation::Before => Relation::Before,
            Relation::After => Relation::After,
            Relation::Same => self.1.compare(&other.1),
        }
    }
}

/// Nothing stands before every key.
impl<K: SortKey> SortKey for Option<K> {
    open spec fn before(a: Option<K::V>, b: Option<K::V>) -> bool {
        match (a, b) {
            (_, None) => false,
            (None, Some(_)) => true,
            (Some(x), Some(y)) => K::before(x, y),
        }
    }

    proof fn irreflexive(a: Option<K::V>) {
        if let Some(x) = a {
            K::irreflexive(x);
        }
    }

    proof fn transitive(a: Option<K::V>, b: Option<K::V>, c: Option<K::V>) {
        if a is Some && b is Some && c is Some {
            K::transitive(a->0, b->0, c->0);
        }
    }

    proof fn total(a: Option<K::V>, b: Option<K::V>) {
        if a is Some && b is Some {
            K::total(a->0, b->0);
        }
    }

    fn compare(&self, other: &Self) -> (r: Relation) {
        match (self, other) {
            (None, None) => Relation::Same,
            (None, Some(_)) => Relation::Before,
            (Some(_), None) => Relation::After,
            (Some(x), Some(y)) => x.compare(y),
        }
    }
}

/// Whether a sequence of keys is in strict order.
pub open spec fn strictly_sorted<K: SortKey>(keys: Seq<K::V>) -> bool {
    forall|i: int, j: int| 0 <= i < j < keys.len() ==> K::before(#[trigger] keys[i], #[trigger] keys[j])
}

/// Whether `keys` lists every key of `domain` once, in order.
pub open spec fn lists_in_order<K: SortKey>(keys: Seq<K::V>, domain: Set<K::V>) -> bool {
    &&& strictly_sorted::<K>(keys)
    &&& keys.to_set() == domain
}

/// Strictly sorted sequences hold no key twice.
pub proof fn strictly_sorted_unique<K: SortKey>(keys: Seq<K::V>)
    requires
        strictly_sorted::<K>(keys),
    ensures
        keys.no_duplicates(),
        keys.to_set().len() == keys.len(),
        keys.to_set().finite(),
{
    assert forall|i: int, j: int| 0 <= i < j < keys.len() implies keys[i] != keys[j] by {
        K::irreflexive(keys[i]);
    }
    keys.unique_seq_to_set();
}

/// Two strictly sorted sequences over one set are equal.
pub proof fn lists_in_order_unique<K: SortKey>(a: Seq<K::V>, b: Seq<K::V>, domain: Set<K::V>)
    requires
        lists_in_order::<K>(a, domain),
        lists_in_order::<K>(b, domain),
    ensures
        a == b,
    decreases a.len(),
{
    strictly_sorted_unique::<K>(a);
    strictly_sorted_unique::<K>(b);
    if a.len() > 0 {
        let x = a.last();
        let y = b.last();
        assert(domain.contains(x)) by {
            assert(a.contains(x));
        }
        assert(domain.contains(y)) by {
            assert(b.contains(y));
        }
        assert(b.contains(x));
        assert(a.contains(y));
        let i = choose|i: int| 0 <= i < b.len() && b[i] == x;
        let j = choose|j: int| 0 <= j < a.len() && a[j] == y;
        if x != y {
            assert(K::before(b[i], b[b.len() - 1]));
            assert(K::before(a[j], a[a.len() - 1]));
            K::transitive(x, y, x);
            K::irreflexive(x);
        }
        let a0 = a.drop_last();
        let b0 = b.drop_last();
        assert forall|k: K::V| a0.to_set().contains(k) == domain.remove(x).contains(k) by {
            if a0.contains(k) {
                let n = choose|n: int| 0 <= n < a0.len() && a0[n] == k;
                assert(a[n] == k);
                assert(a.contains(k));
            }
            if domain.contains(k) && k != x {
                assert(a.contains(k));
                let n = choose|n: int| 0 <= n < a.len() && a[n] == k;
                assert(a0[n] == k);
            }
        }
        assert forall|k: K::V| b0.to_set().contains(k) == domain.remove(x).contains(k) by {
            if b0.contains(k) {
                let n = choose|n: int| 0 <= n < b0.len() && b0[n] == k;
                assert(b[n] == k);
                assert(b.contains(k));
            }
            if domain.contains(k) && k != x {
                assert(b.contains(k));
                let n = choose|n: int| 0 <= n < b.len() && b[n] == k;
                assert(b0[n] == k);
            }
        }
        assert(a0.to_set() =~= domain.remove(x));
        assert(b0.to_set() =~= domain.remove(x));
        lists_in_order_unique::<K>(a0, b0, domain.remove(x));
        assert(a == a0.push(x));
        assert(b == b0.push(x));
    } else {
        assert(b.len() == 0);
    }
}

/// One more item of a sequence adds that item to the set of the items before.
pub proof fn prefix_grows<A>(s: Seq<A>, i: int)
    requires
        0 <= i < s.len(),
    ensures
        s.take(i + 1).to_set() == s.take(i).to_set().insert(s[i]),
        s.take(i + 1).drop_last() == s.take(i),
        s.take(i + 1).last() == s[i],
        s.take(i + 1).len() == i + 1,
        s.take(s.len() as int) == s,
        s.take(0) == Seq::<A>::empty(),
{
    let now = s.take(i + 1);
    let then = s.take(i);
    assert forall|x: A| #[trigger] now.to_set().contains(x) <==> then.to_set().insert(s[i]).contains(x) by {
        if now.contains(x) && x != s[i] {
            let j = choose|j: int| 0 <= j < now.len() && now[j] == x;
            assert(then[j] == x);
        }
        if then.contains(x) {
            let j = choose|j: int| 0 <= j < then.len() && then[j] == x;
            assert(now[j] == x);
        }
        assert(now[i] == s[i]);
    }
    assert(now.to_set() =~= then.to_set().insert(s[i]));
    assert(now.drop_last() =~= then);
    assert(s.take(s.len() as int) =~= s);
    assert(s.take(0) =~= Seq::empty());
}

/// A key of an ordered list stands nowhere before its place.
pub proof fn prefix_lacks<K: SortKey>(keys: Seq<K::V>, i: int)
    requires
        strictly_sorted::<K>(keys),
        0 <= i < keys.len(),
    ensures
        !keys.take(i).to_set().contains(keys[i]),
{
    if keys.take(i).contains(keys[i]) {
        let j = choose|j: int| 0 <= j < i && keys.take(i)[j] == keys[i];
        assert(keys[j] == keys[i]);
        K::irreflexive(keys[i]);
    }
}

/// The keys of a set, in order.
pub open spec fn sorted_keys<K: SortKey>(domain: Set<K::V>) -> Seq<K::V> {
    choose|keys: Seq<K::V>| lists_in_order::<K>(keys, domain)
}

/// An ordered listing of a set is the one that `sorted_keys` names.
pub proof fn sorted_keys_are<K: SortKey>(keys: Seq<K::V>, domain: Set<K::V>)
    requires
        lists_in_order::<K>(keys, domain),
    ensures
        sorted_keys::<K>(domain) == keys,
{
    lists_in_order_unique::<K>(sorted_keys::<K>(domain), keys, domain);
}

/// A finite set can be listed in order.
pub proof fn finite_sets_are_listed<K: SortKey>(domain: Set<K::V>)
    requires
        domain.finite(),
    ensures
        lists_in_order::<K>(sorted_keys::<K>(domain), domain),
    decreases domain.len(),
{
    if domain.len() == 0 {
        domain.lemma_len0_is_empty();
        assert(Seq::<K::V>::empty().to_set() =~= domain);
        assert(lists_in_order::<K>(Seq::<K::V>::empty(), domain));
    } else {
        let key = domain.choose();
        finite_sets_are_listed::<K>(domain.remove(key));
        let rest = sorted_keys::<K>(domain.remove(key));
        assert(!rest.contains(key)) by {
            if rest.contains(key) {
                assert(rest.to_set().contains(key));
            }
        }
        let at = place_of::<K>(rest, key, rest.len());
        let all = rest.insert(at, key);
        assert forall|i: int, j: int| 0 <= i < j < all.len() implies K::before(#[trigger] all[i], #[trigger] all[j]) by {
            let i0 = if i < at { i } else { i - 1 };
            let j0 = if j < at { j } else { j - 1 };
            if i != at {
                assert(all[i] == rest[i0]);
            }
            if j != at {
                assert(all[j] == rest[j0]);
            }
        }
        assert forall|k: K::V| all.to_set().contains(k) == domain.contains(k) by {
            if all.contains(k) {
                let i = choose|i: int| 0 <= i < all.len() && all[i] == k;
                if i != at {
                    let i0 = if i < at { i } else { i - 1 };
                    assert(rest[i0] == k);
                    assert(rest.contains(k));
                    assert(rest.to_set().contains(k));
                }
            }
            if domain.contains(k) {
                if k == key {
                    assert(all[at] == k);
                } else {
                    assert(rest.to_set().contains(k));
                    assert(rest.contains(k));
                    let i = choose|i: int| 0 <= i < rest.len() && rest[i] == k;
                    let i1 = if i < at { i } else { i + 1 };
                    assert(all[i1] == k);
                }
            }
        }
        assert(all.to_set() =~= domain);
        assert(lists_in_order::<K>(all, domain));
    }
}

/// Where a key belongs among the first `n` keys of an ordered list.
proof fn place_of<K: SortKey>(keys: Seq<K::V>, key: K::V, n: nat) -> (at: int)
    requires
        strictly_sorted::<K>(keys),
        !keys.contains(key),
        n <= keys.len(),
        forall|i: int| n <= i < keys.len() ==> K::before(key, #[trigger] keys[i]),
    ensures
        0 <= at <= n,
        forall|i: int| 0 <= i < at ==> K::before(#[trigger] keys[i], key),
        forall|i: int| at <= i < keys.len() ==> K::before(key, #[trigger] keys[i]),
    decreases n,
{
    if n == 0 {
        0
    } else {
        let last = keys[n - 1];
        assert(keys.contains(last));
        K::total(last, key);
        if K::before(last, key) {
            assert forall|i: int| 0 <= i < n implies K::before(#[trigger] keys[i], key) by {
                if i < n - 1 {
                    K::transitive(keys[i], last, key);
                }
            }
            n as int
        } else {
            place_of::<K>(keys, key, (n - 1) as nat)
        }
    }
}

/// The entries of a map that meet `p`.
pub open spec fn filtered<K, V>(m: Map<K, V>, p: spec_fn(K, V) -> bool) -> Map<K, V> {
    Map::new(|k: K| m.contains_key(k) && p(k, m[k]), |k: K| m[k])
}

/// A map whose entries stand in key order.
pub struct SortedMap<K: SortKey, V: DeepView> {
    entries: Vec<(K, V)>,
}

impl<K: SortKey, V: DeepView> DeepView for SortedMap<K, V> {
    type V = Map<K::V, V::V>;

    closed spec fn deep_view(&self) -> Map<K::V, V::V> {
        let e = self.entries@;
        Map::new(
            |k: K::V| exists|i: int| 0 <= i < e.len() && (#[trigger] e[i]).0.deep_view() == k,
            |k: K::V|
                e[choose|i: int| 0 <= i < e.len() && (#[trigger] e[i]).0.deep_view() == k].1.deep_view(),
        )
    }
}

spec fn keys_of<K: SortKey, V: DeepView>(entries: Seq<(K, V)>) -> Seq<K::V> {
    Seq::new(entries.len(), |i: int| entries[i].0.deep_view())
}

spec fn map_of<K: SortKey, V: DeepView>(e: Seq<(K, V)>) -> Map<K::V, V::V> {
    Map::new(
        |k: K::V| exists|i: int| 0 <= i < e.len() && (#[trigger] e[i]).0.deep_view() == k,
        |k: K::V|
            e[choose|i: int| 0 <= i < e.len() && (#[trigger] e[i]).0.deep_view() == k].1.deep_view(),
    )
}

proof fn keys_list_domain<K: SortKey, V: DeepView>(e: Seq<(K, V)>)
    requires
        strictly_sorted::<K>(keys_of(e)),
    ensures
        lists_in_order::<K>(keys_of(e), map_of(e).dom()),
        forall|i: int| #![trigger e[i]] 0 <= i < e.len() ==> map_of(e).contains_key(e[i].0.deep_view())
            && map_of(e)[e[i].0.deep_view()] == e[i].1.deep_view(),
{
    let keys = keys_of(e);
    assert forall|k: K::V| keys.to_set().contains(k) == map_of(e).dom().contains(k) by {
        if keys.contains(k) {
            let i = choose|i: int| 0 <= i < keys.len() && keys[i] == k;
            assert(e[i].0.deep_view() == k);
        }
        if map_of(e).dom().contains(k) {
            let i = choose|i: int| 0 <= i < e.len() && (#[trigger] e[i]).0.deep_view() == k;
            assert(keys[i] == k);
        }
    }
    assert(keys.to_set() =~= map_of(e).dom());
    strictly_sorted_unique::<K>(keys);
    assert forall|i: int| #![trigger e[i]] 0 <= i < e.len() implies map_of(e).contains_key(e[i].0.deep_view())
        && map_of(e)[e[i].0.deep_view()] == e[i].1.deep_view() by {
        let k = e[i].0.deep_view();
        let j = choose|j: int| 0 <= j < e.len() && (#[trigger] e[j]).0.deep_view() == k;
        assert(keys[i] == keys[j]);
    }
}

proof fn insertion<K: SortKey, V: DeepView>(e: Seq<(K, V)>, at: int, key: K, value: V)
    requires
        strictly_sorted::<K>(keys_of(e)),
        0 <= at <= e.len(),
        forall|i: int| 0 <= i < at ==> K::before((#[trigger] e[i]).0.deep_view(), key.deep_view()),
        forall|i: int| at <= i < e.len() ==> K::before(key.deep_view(), (#[trigger] e[i]).0.deep_view()),
    ensures
        strictly_sorted::<K>(keys_of(e.insert(at, (key, value)))),
        map_of(e.insert(at, (key, value))) == map_of(e).insert(key.deep_view(), value.deep_view()),
{
    let f = e.insert(at, (key, value));
    assert forall|i: int, j: int| 0 <= i < j < keys_of(f).len() implies K::before(#[trigger] keys_of(f)[i], #[trigger] keys_of(f)[j]) by {
        if i != at && j != at {
            let i0 = if i < at { i } else { i - 1 };
            let j0 = if j < at { j } else { j - 1 };
            assert(f[i] == e[i0] && f[j] == e[j0]);
            assert(K::before(keys_of(e)[i0], keys_of(e)[j0]));
        } else if i == at {
            assert(f[j] == e[j - 1]);
        } else {
            assert(f[i] == e[i]);
        }
    }
    keys_list_domain(e);
    keys_list_domain(f);
    let m = map_of(e).insert(key.deep_view(), value.deep_view());
    assert forall|k: K::V| #![trigger m.dom().contains(k)] #![trigger map_of(f).dom().contains(k)] map_of(f).dom().contains(k) == m.dom().contains(k) && (m.dom().contains(k) ==> map_of(f)[k] == m[k]) by {
        assert(f[at] == (key, value));
        if map_of(f).dom().contains(k) {
            let i = choose|i: int| 0 <= i < f.len() && (#[trigger] f[i]).0.deep_view() == k;
            if i != at {
                let i0 = if i < at { i } else { i - 1 };
                assert(f[i] == e[i0]);
            }
        }
        if map_of(e).dom().contains(k) {
            let i = choose|i: int| 0 <= i < e.len() && (#[trigger] e[i]).0.deep_view() == k;
            let i1 = if i < at { i } else { i + 1 };
            assert(f[i1] == e[i]);
            if k == key.deep_view() {
                K::irreflexive(k);
            }
        }
    }
    assert(map_of(f).dom() =~= m.dom());
    assert(map_of(f) =~= m);
}

proof fn replacement<K: SortKey, V: DeepView>(e: Seq<(K, V)>, at: int, key: K, value: V)
    requires
        strictly_sorted::<K>(keys_of(e)),
        0 <= at < e.len(),
        e[at].0.deep_view() == key.deep_view(),
    ensures
        strictly_sorted::<K>(keys_of(e.update(at, (key, value)))),
        map_of(e.update(at, (key, value))) == map_of(e).insert(key.deep_view(), value.deep_view()),
{
    let f = e.update(at, (key, value));
    assert(keys_of(f) =~= keys_of(e));
    keys_list_domain(e);
    keys_list_domain(f);
    let m = map_of(e).insert(key.deep_view(), value.deep_view());
    assert forall|k: K::V| #![trigger m.dom().contains(k)] #![trigger map_of(f).dom().contains(k)] map_of(f).dom().contains(k) == m.dom().contains(k) && (m.dom().contains(k) ==> map_of(f)[k] == m[k]) by {
        assert(f[at] == (key, value));
        if map_of(f).dom().contains(k) {
            let i = choose|i: int| 0 <= i < f.len() && (#[trigger] f[i]).0.deep_view() == k;
            if i != at {
                assert(f[i] == e[i]);
                assert(keys_of(f)[i] != keys_of(f)[at]) by {
                    strictly_sorted_unique::<K>(keys_of(f));
                }
            }
        }
        if map_of(e).dom().contains(k) {
            let i = choose|i: int| 0 <= i < e.len() && (#[trigger] e[i]).0.deep_view() == k;
            if i != at {
                assert(f[i] == e[i]);
            }
        }
    }
    assert(map_of(f).dom() =~= m.dom());
    assert(map_of(f) =~= m);
}

proof fn removal<K: SortKey, V: DeepView>(e: Seq<(K, V)>, at: int)
    requires
        strictly_sorted::<K>(keys_of(e)),
        0 <= at < e.len(),
    ensures
        strictly_sorted::<K>(keys_of(e.remove(at))),
        map_of(e.remove(at)) == map_of(e).remove(e[at].0.deep_view()),
{
    let f = e.remove(at);
    assert forall|i: int, j: int| 0 <= i < j < keys_of(f).len() implies K::before(#[trigger] keys_of(f)[i], #[trigger] keys_of(f)[j]) by {
        let i0 = if i < at { i } else { i + 1 };
        let j0 = if j < at { j } else { j + 1 };
        assert(f[i] == e[i0] && f[j] == e[j0]);
        assert(K::before(keys_of(e)[i0], keys_of(e)[j0]));
    }
    keys_list_domain(e);
    keys_list_domain(f);
    let m = map_of(e).remove(e[at].0.deep_view());
    assert forall|k: K::V| #![trigger m.dom().contains(k)] #![trigger map_of(f).dom().contains(k)] map_of(f).dom().contains(k) == m.dom().contains(k) && (m.dom().contains(k) ==> map_of(f)[k] == m[k]) by {
        if map_of(f).dom().contains(k) {
            let i = choose|i: int| 0 <= i < f.len() && (#[trigger] f[i]).0.deep_view() == k;
            let i0 = if i < at { i } else { i + 1 };
            assert(f[i] == e[i0]);
            assert(keys_of(e)[i0] != keys_of(e)[at]) by {
                strictly_sorted_unique::<K>(keys_of(e));
            }
        }
        if m.dom().contains(k) {
            let i = choose|i: int| 0 <= i < e.len() && (#[trigger] e[i]).0.deep_view() == k;
            let i1 = if i < at { i } else { i - 1 };
            assert(f[i1] == e[i]);
        }
    }
    assert(map_of(f).dom() =~= m.dom());
    assert(map_of(f) =~= m);
}

impl<K: SortKey, V: DeepView> SortedMap<K, V> {
    #[verifier::type_invariant]
    closed spec fn in_order(&self) -> bool {
        strictly_sorted::<K>(keys_of(self.entries@))
    }

    pub fn new() -> (r: Self)
        ensures
            r.deep_view() == Map::<K::V, V::V>::empty(),
    {
        let r = SortedMap { entries: Vec::new() };
        assert(r.deep_view() =~= Map::<K::V, V::V>::empty());
        r
    }

    pub fn len(&self) -> (r: usize)
        ensures
            r == self.deep_view().dom().len(),
            self.deep_view().dom().finite(),
    {
        proof {
            use_type_invariant(&*self);
            keys_list_domain(self.entries@);
            strictly_sorted_unique::<K>(keys_of(self.entries@));
            assert(self.deep_view() == map_of(self.entries@));
        }
        self.entries.len()
    }

    /// The place of `key`, or the place where it would have to be put.
    fn locate(&self, key: &K) -> (r: (bool, usize))
        ensures
            r.1 <= self.entries@.len(),
            r.0 ==> r.1 < self.entries@.len() && self.entries@[r.1 as int].0.deep_view() == key.deep_view(),
            !r.0 ==> {
                &&& forall|i: int| 0 <= i < r.1 ==> K::before((#[trigger] self.entries@[i]).0.deep_view(), key.deep_view())
                &&& forall|i: int| r.1 <= i < self.entries@.len() ==> K::before(key.deep_view(), (#[trigger] self.entries@[i]).0.deep_view())
            },
            r.0 == self.deep_view().contains_key(key.deep_view()),
            r.0 ==> self.entries@[r.1 as int].1.deep_view() == self.deep_view()[key.deep_view()],
    {
        proof {
            use_type_invariant(&*self);
            keys_list_domain(self.entries@);
            assert(self.deep_view() == map_of(self.entries@));
        }
        let mut i: usize = 0;
        while i < self.entries.len()
            invariant
                i <= self.entries@.len(),
                forall|j: int| 0 <= j < i ==> K::before((#[trigger] self.entries@[j]).0.deep_view(), key.deep_view()),
                strictly_sorted::<K>(keys_of(self.entries@)),
                self.deep_view() == map_of(self.entries@),
                forall|j: int| #![trigger self.entries@[j]] 0 <= j < self.entries@.len()
                    ==> self.deep_view().contains_key(self.entries@[j].0.deep_view())
                    && self.deep_view()[self.entries@[j].0.deep_view()] == self.entries@[j].1.deep_view(),
            decreases self.entries@.len() - i,
        {
            let entry = &self.entries[i];
            assert(keys_of(self.entries@)[i as int] == entry.0.deep_view());
            match entry.0.compare(key) {
                Relation::Before => {
                    i = i + 1;
                },
                Relation::Same => {
                    return (true, i);
                },
                Relation::After => {
                    proof {
                        assert forall|j: int| i <= j < self.entries@.len()
                            implies K::before(key.deep_view(), (#[trigger] self.entries@[j]).0.deep_view()) by {
                            assert(keys_of(self.entries@)[j] == self.entries@[j].0.deep_view());
                            if j > i {
                                K::transitive(key.deep_view(), keys_of(self.entries@)[i as int], keys_of(self.entries@)[j]);
                            }
                        }
                        Self::absent(self.entries@, i as int, *key);
                    }
                    return (false, i);
                },
            }
        }
        proof {
            Self::absent(self.entries@, i as int, *key);
        }
        (false, i)
    }

    proof fn absent(e: Seq<(K, V)>, at: int, key: K)
        requires
            0 <= at <= e.len(),
            forall|i: int| 0 <= i < at ==> K::before((#[trigger] e[i]).0.deep_view(), key.deep_view()),
            forall|i: int| at <= i < e.len() ==> K::before(key.deep_view(), (#[trigger] e[i]).0.deep_view()),
        ensures
            !map_of(e).contains_key(key.deep_view()),
    {
        K::irreflexive(key.deep_view());
    }

    pub fn contains_key(&self, key: &K) -> (r: bool)
        ensures
            r == self.deep_view().contains_key(key.deep_view()),
    {
        self.locate(key).0
    }

    pub fn get(&self, key: &K) -> (r: Option<&V>)
        ensures
            match r {
                Some(v) => self.deep_view().contains_key(key.deep_view()) && v.deep_view() == self.deep_view()[key.deep_view()],
                None => !self.deep_view().contains_key(key.deep_view()),
            },
    {
        let (found, at) = self.locate(key);
        if found {
            Some(&self.entries[at].1)
        } else {
            None
        }
    }

    pub fn insert(&mut self, key: K, value: V)
        ensures
            final(self).deep_view() == old(self).deep_view().insert(key.deep_view(), value.deep_view()),
    {
        proof {
            use_type_invariant(&*self);
        }
        let (found, at) = self.locate(&key);
        let mut entries: Vec<(K, V)> = Vec::new();
        std::mem::swap(&mut entries, &mut self.entries);
        let ghost e = entries@;
        if found {
            proof {
                replacement(e, at as int, key, value);
            }
            entries.set(at, (key, value));
        } else {
            proof {
                insertion(e, at as int, key, value);
            }
            entries.insert(at, (key, value));
        }
        std::mem::swap(&mut entries, &mut self.entries);
        assert(self.deep_view() == map_of(self.entries@));
        assert(old(self).deep_view() == map_of(e));
    }

    pub fn remove(&mut self, key: &K) -> (r: Option<V>)
        ensures
            final(self).deep_view() == old(self).deep_view().remove(key.deep_view()),
            match r {
                Some(v) => old(self).deep_view().contains_key(key.deep_view()) && v.deep_view() == old(self).deep_view()[key.deep_view()],
                None => !old(self).deep_view().contains_key(key.deep_view()),
            },
    {
        proof {
            use_type_invariant(&*self);
        }
        let (found, at) = self.locate(key);
        if found {
            let mut entries: Vec<(K, V)> = Vec::new();
            std::mem::swap(&mut entries, &mut self.entries);
            let ghost e = entries@;
            proof {
                removal(e, at as int);
            }
            let (_, value) = entries.remove(at);
            std::mem::swap(&mut entries, &mut self.entries);
            assert(self.deep_view() == map_of(self.entries@));
            assert(old(self).deep_view() == map_of(e));
            Some(value)
        } else {
            assert(self.deep_view() =~= old(self).deep_view().remove(key.deep_view()));
            None
        }
    }

    /// The keys in order.
    pub fn keys(&self) -> (r: Vec<K>)
        ensures
            lists_in_order::<K>(r.deep_view(), self.deep_view().dom()),
            r.deep_view() == sorted_keys::<K>(self.deep_view().dom()),
    {
        proof {
            use_type_invariant(&*self);
            keys_list_domain(self.entries@);
            assert(self.deep_view() == map_of(self.entries@));
        }
        let mut r: Vec<K> = Vec::new();
        let mut i: usize = 0;
        while i < self.entries.len()
            invariant
                i <= self.entries@.len(),
                r@.len() == i,
                forall|j: int| 0 <= j < i ==> (#[trigger] r@[j]).deep_view() == self.entries@[j].0.deep_view(),
            decreases self.entries@.len() - i,
        {
            r.push(self.entries[i].0.duplicate());
            i = i + 1;
        }
        assert(r.deep_view() =~= keys_of(self.entries@));
        proof {
            sorted_keys_are::<K>(r.deep_view(), self.deep_view().dom());
        }
        r
    }

    /// The keys of the entries that meet `test`, which decides `p`, in order.
    pub fn keys_where<F: Fn(&K, &V) -> bool>(&self, test: F, p: Ghost<spec_fn(K::V, V::V) -> bool>) -> (r: Vec<K>)
        requires
            forall|k: &K, v: &V| call_requires(test, (k, v)),
            forall|k: &K, v: &V, b: bool| call_ensures(test, (k, v), b) ==> b == (p@)(k.deep_view(), v.deep_view()),
        ensures
            lists_in_order::<K>(r.deep_view(), filtered(self.deep_view(), p@).dom()),
            r.deep_view() == sorted_keys::<K>(filtered(self.deep_view(), p@).dom()),
    {
        proof {
            use_type_invariant(&*self);
            keys_list_domain(self.entries@);
        }
        let ghost chosen = filtered(self.deep_view(), p@);
        let mut r: Vec<K> = Vec::new();
        let mut from: Ghost<Seq<int>> = Ghost(Seq::empty());
        let mut i: usize = 0;
        while i < self.entries.len()
            invariant
                i <= self.entries@.len(),
                forall|k: &K, v: &V| call_requires(test, (k, v)),
                forall|k: &K, v: &V, b: bool| call_ensures(test, (k, v), b) ==> b == (p@)(k.deep_view(), v.deep_view()),
                from@.len() == r@.len(),
                forall|j: int| 0 <= j < r@.len() ==> 0 <= #[trigger] from@[j] < i
                    && r@[j].deep_view() == self.entries@[from@[j]].0.deep_view()
                    && (p@)(self.entries@[from@[j]].0.deep_view(), self.entries@[from@[j]].1.deep_view()),
                forall|j: int, k: int| 0 <= j < k < r@.len() ==> #[trigger] from@[j] < #[trigger] from@[k],
                forall|j: int| 0 <= j < i && (p@)((#[trigger] self.entries@[j]).0.deep_view(), self.entries@[j].1.deep_view()) ==> from@.contains(j),
            decreases self.entries@.len() - i,
        {
            let ghost before = from@;
            if test(&self.entries[i].0, &self.entries[i].1) {
                r.push(self.entries[i].0.duplicate());
                proof {
                    from@ = from@.push(i as int);
                    assert forall|j: int| 0 <= j <= i
                        && (p@)((#[trigger] self.entries@[j]).0.deep_view(), self.entries@[j].1.deep_view()) implies from@.contains(j) by {
                        if j < i {
                            let n = choose|n: int| 0 <= n < before.len() && before[n] == j;
                            assert(from@[n] == j);
                        } else {
                            assert(from@[from@.len() - 1] == j);
                        }
                    }
                }
            }
            i = i + 1;
        }
        proof {
            let keys = r.deep_view();
            let all = keys_of(self.entries@);
            assert forall|j: int, k: int| 0 <= j < k < keys.len() implies K::before(#[trigger] keys[j], #[trigger] keys[k]) by {
                assert(K::before(all[from@[j]], all[from@[k]]));
            }
            assert forall|k: K::V| #[trigger] keys.to_set().contains(k) <==> chosen.dom().contains(k) by {
                if keys.contains(k) {
                    let j = choose|j: int| 0 <= j < keys.len() && keys[j] == k;
                    let e = self.entries@[from@[j]];
                    assert(r@[j].deep_view() == e.0.deep_view());
                }
                if chosen.dom().contains(k) {
                    let n = choose|n: int| 0 <= n < self.entries@.len() && (#[trigger] self.entries@[n]).0.deep_view() == k;
                    assert(from@.contains(n));
                    let j = choose|j: int| 0 <= j < from@.len() && from@[j] == n;
                    assert(keys[j] == k);
                }
            }
            assert(keys.to_set() =~= chosen.dom());
            sorted_keys_are::<K>(keys, chosen.dom());
        }
        r
    }

    pub fn is_empty(&self) -> (r: bool)
        ensures
            r == (self.deep_view().dom() == Set::<K::V>::empty()),
            r == (self.deep_view() == Map::<K::V, V::V>::empty()),
    {
        let n: usize = self.len();
        proof {
            if n == 0 {
                self.deep_view().dom().lemma_len0_is_empty();
                assert(self.deep_view() =~= Map::<K::V, V::V>::empty());
            }
        }
        n == 0
    }

    pub fn clear(&mut self)
        ensures
            final(self).deep_view() == Map::<K::V, V::V>::empty(),
    {
        let mut entries: Vec<(K, V)> = Vec::new();
        std::mem::swap(&mut entries, &mut self.entries);
        assert(self.deep_view() =~= Map::<K::V, V::V>::empty());
    }

    /// Whether some entry meets `test`, which decides `p`.
    pub fn any<F: Fn(&K, &V) -> bool>(&self, test: F, p: Ghost<spec_fn(K::V, V::V) -> bool>) -> (r: bool)
        requires
            forall|k: &K, v: &V| call_requires(test, (k, v)),
            forall|k: &K, v: &V, b: bool| call_ensures(test, (k, v), b) ==> b == (p@)(k.deep_view(), v.deep_view()),
        ensures
            r == exists|k: K::V| #[trigger] self.deep_view().contains_key(k) && (p@)(k, self.deep_view()[k]),
    {
        proof {
            use_type_invariant(&*self);
            keys_list_domain(self.entries@);
            assert(self.deep_view() == map_of(self.entries@));
        }
        let mut i: usize = 0;
        while i < self.entries.len()
            invariant
                i <= self.entries@.len(),
                forall|k: &K, v: &V| call_requires(test, (k, v)),
                forall|k: &K, v: &V, b: bool| call_ensures(test, (k, v), b) ==> b == (p@)(k.deep_view(), v.deep_view()),
                forall|j: int| 0 <= j < i ==> !(p@)((#[trigger] self.entries@[j]).0.deep_view(), self.entries@[j].1.deep_view()),
                self.deep_view() == map_of(self.entries@),
                forall|j: int| #![trigger self.entries@[j]] 0 <= j < self.entries@.len()
                    ==> self.deep_view().contains_key(self.entries@[j].0.deep_view())
                    && self.deep_view()[self.entries@[j].0.deep_view()] == self.entries@[j].1.deep_view(),
            decreases self.entries@.len() - i,
        {
            let entry = &self.entries[i];
            if test(&entry.0, &entry.1) {
                assert(self.deep_view().contains_key(self.entries@[i as int].0.deep_view()));
                return true;
            }
            i = i + 1;
        }
        proof {
            assert forall|k: K::V| #[trigger] self.deep_view().contains_key(k) implies !(p@)(k, self.deep_view()[k]) by {
                let j = choose|j: int| 0 <= j < self.entries@.len() && (#[trigger] self.entries@[j]).0.deep_view() == k;
                assert(self.entries@[j].0.deep_view() == k);
            }
        }
        false
    }

    /// Keeps the entries that meet `test`, which decides `p`.
    pub fn retain<F: Fn(&K, &V) -> bool>(&mut self, test: F, p: Ghost<spec_fn(K::V, V::V) -> bool>)
        requires
            forall|k: &K, v: &V| call_requires(test, (k, v)),
            forall|k: &K, v: &V, b: bool| call_ensures(test, (k, v), b) ==> b == (p@)(k.deep_view(), v.deep_view()),
        ensures
            final(self).deep_view() == filtered(old(self).deep_view(), p@),
    {
        proof {
            use_type_invariant(&*self);
            keys_list_domain(self.entries@);
        }
        let ghost m = self.deep_view();
        assert(m == map_of(self.entries@));
        let mut entries: Vec<(K, V)> = Vec::new();
        std::mem::swap(&mut entries, &mut self.entries);
        let mut i: usize = 0;
        while i < entries.len()
            invariant
                i <= entries@.len(),
                strictly_sorted::<K>(keys_of(entries@)),
                forall|k: &K, v: &V| call_requires(test, (k, v)),
                forall|k: &K, v: &V, b: bool| call_ensures(test, (k, v), b) ==> b == (p@)(k.deep_view(), v.deep_view()),
                forall|j: int| 0 <= j < i ==> (p@)((#[trigger] entries@[j]).0.deep_view(), entries@[j].1.deep_view()),
                forall|k: K::V| #[trigger] map_of(entries@).contains_key(k) ==> m.contains_key(k) && m[k] == map_of(entries@)[k],
                forall|k: K::V| #[trigger] m.contains_key(k) && (p@)(k, m[k]) ==> map_of(entries@).contains_key(k),
            decreases entries@.len() - i,
        {
            let keep = test(&entries[i].0, &entries[i].1);
            proof {
                keys_list_domain(entries@);
                assert(map_of(entries@).contains_key(entries@[i as int].0.deep_view()));
            }
            if keep {
                i = i + 1;
            } else {
                proof {
                    removal(entries@, i as int);
                }
                entries.remove(i);
            }
        }
        proof {
            keys_list_domain(entries@);
            let n = map_of(entries@);
            assert forall|k: K::V| #[trigger] n.dom().contains(k) == filtered(m, p@).dom().contains(k) by {
                if n.contains_key(k) {
                    let j = choose|j: int| 0 <= j < entries@.len() && (#[trigger] entries@[j]).0.deep_view() == k;
                    assert(entries@[j].0.deep_view() == k);
                }
            }
            assert(n.dom() =~= filtered(m, p@).dom());
            assert(n =~= filtered(m, p@));
        }
        std::mem::swap(&mut entries, &mut self.entries);
        assert(self.deep_view() == map_of(self.entries@));
    }

    /// Replaces every value by what `change` makes of it, which is `f`.
    pub fn update_values<F: Fn(&V) -> V>(&mut self, change: F, f: Ghost<spec_fn(V::V) -> V::V>)
        requires
            forall|v: &V| call_requires(change, (v,)),
            forall|v: &V, w: V| call_ensures(change, (v,), w) ==> w.deep_view() == (f@)(v.deep_view()),
        ensures
            final(self).deep_view() == old(self).deep_view().map_values(f@),
    {
        proof {
            use_type_invariant(&*self);
            keys_list_domain(self.entries@);
        }
        let ghost m = self.deep_view();
        assert(m == map_of(self.entries@));
        let mut entries: Vec<(K, V)> = Vec::new();
        std::mem::swap(&mut entries, &mut self.entries);
        let ghost e = entries@;
        let mut i: usize = 0;
        while i < entries.len()
            invariant
                i <= entries@.len(),
                entries@.len() == e.len(),
                keys_of(entries@) == keys_of(e),
                forall|v: &V| call_requires(change, (v,)),
                forall|v: &V, w: V| call_ensures(change, (v,), w) ==> w.deep_view() == (f@)(v.deep_view()),
                forall|j: int| 0 <= j < i ==> (#[trigger] entries@[j]).1.deep_view() == (f@)(e[j].1.deep_view()),
                forall|j: int| i <= j < e.len() ==> entries@[j] == e[j],
            decreases entries@.len() - i,
        {
            let key = entries[i].0.duplicate();
            let value = change(&entries[i].1);
            let ghost before = entries@;
            entries.set(i, (key, value));
            i = i + 1;
            proof {
                assert(keys_of(entries@) =~= keys_of(e)) by {
                    assert(keys_of(before)[i - 1] == before[i - 1].0.deep_view());
                }
            }
        }
        proof {
            keys_list_domain(entries@);
            keys_list_domain(e);
            let n = map_of(entries@);
            let t = m.map_values(f@);
            assert(n.dom() =~= t.dom());
            assert forall|k: K::V| #[trigger] t.dom().contains(k) implies n[k] == t[k] by {
                let j = choose|j: int| 0 <= j < e.len() && (#[trigger] e[j]).0.deep_view() == k;
                assert(keys_of(entries@)[j] == keys_of(e)[j]);
                assert(entries@[j].0.deep_view() == k);
                assert(e[j].0.deep_view() == k);
            }
            assert(n =~= t);
        }
        std::mem::swap(&mut entries, &mut self.entries);
        assert(self.deep_view() == map_of(self.entries@));
    }
}

impl<K: SortKey, V: Duplicate> Duplicate for SortedMap<K, V> {
    fn duplicate(&self) -> (r: Self) {
        proof {
            use_type_invariant(self);
            keys_list_domain(self.entries@);
        }
        let entries = self.entries.duplicate();
        proof {
            assert(entries.deep_view().len() == entries@.len());
            assert(self.entries.deep_view().len() == self.entries@.len());
            assert forall|j: int| 0 <= j < entries@.len() implies (#[trigger] entries@[j]).0.deep_view() == self.entries@[j].0.deep_view()
                && entries@[j].1.deep_view() == self.entries@[j].1.deep_view() by {
                assert(entries.deep_view()[j] == entries@[j].deep_view());
                assert(self.entries.deep_view()[j] == self.entries@[j].deep_view());
            }
            assert(keys_of(entries@) =~= keys_of(self.entries@));
            keys_list_domain(entries@);
            let n = map_of(entries@);
            let m = map_of(self.entries@);
            assert(n.dom() =~= m.dom());
            assert forall|k: K::V| #[trigger] m.dom().contains(k) implies n[k] == m[k] by {
                let j = choose|j: int| 0 <= j < self.entries@.len() && (#[trigger] self.entries@[j]).0.deep_view() == k;
                assert(entries@[j].0.deep_view() == k);
            }
            assert(n =~= m);
        }
        let r = SortedMap { entries };
        assert(r.deep_view() == map_of(r.entries@));
        assert(self.deep_view() == map_of(self.entries@));
        r
    }
}

impl<K: SortKey, V: DeepView> Default for SortedMap<K, V> {
    fn default() -> (r: Self)
        ensures
            r.deep_view() == Map::<K::V, V::V>::empty(),
    {
        SortedMap::new()
    }
}

} // verus!
