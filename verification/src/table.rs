//! Tables that keep their entries in the order of their keys.

use vstd::prelude::*;
use vstd::utf8::{encode_utf8, encode_utf8_decode_utf8, decode_utf8};

verus! {

/// Whether `a` comes before `b` in the order of the dictionary, byte by byte.
pub open spec fn lex_lt(a: Seq<u8>, b: Seq<u8>) -> bool
    decreases a.len(),
{
    if b.len() == 0 {
        false
    } else if a.len() == 0 {
        true
    } else if a[0] != b[0] {
        a[0] < b[0]
    } else {
        lex_lt(a.drop_first(), b.drop_first())
    }
}

/// No byte string comes before itself.
pub proof fn lemma_lex_irreflexive(a: Seq<u8>)
    ensures
        !lex_lt(a, a),
    decreases a.len(),
{
    if a.len() > 0 {
        lemma_lex_irreflexive(a.drop_first());
    }
}

/// What comes before a byte string that comes before a third comes before the third.
pub proof fn lemma_lex_transitive(a: Seq<u8>, b: Seq<u8>, c: Seq<u8>)
    requires
        lex_lt(a, b),
        lex_lt(b, c),
    ensures
        lex_lt(a, c),
    decreases a.len(),
{
    if a.len() > 0 && b.len() > 0 && c.len() > 0 && a[0] == b[0] && b[0] == c[0] {
        lemma_lex_transitive(a.drop_first(), b.drop_first(), c.drop_first());
    }
}

/// Of two different byte strings one comes before the other.
pub proof fn lemma_lex_total(a: Seq<u8>, b: Seq<u8>)
    requires
        a != b,
    ensures
        lex_lt(a, b) || lex_lt(b, a),
    decreases a.len(),
{
    if a.len() == 0 || b.len() == 0 {
        if a.len() == 0 && b.len() == 0 {
            assert(a =~= b);
        }
    } else if a[0] == b[0] {
        if a.drop_first() == b.drop_first() {
            assert(a =~= seq![a[0]] + a.drop_first());
            assert(b =~= seq![b[0]] + b.drop_first());
        }
        lemma_lex_total(a.drop_first(), b.drop_first());
    }
}

/// Whether the bytes `a` come before the bytes `b`.
pub fn bytes_before(a: &[u8], b: &[u8]) -> (r: bool)
    ensures
        r == lex_lt(a@, b@),
{
    let mut k: usize = 0;
    assert(a@.skip(0) =~= a@ && b@.skip(0) =~= b@);
    while k < a.len() && k < b.len()
        invariant
            k <= a@.len(),
            k <= b@.len(),
            lex_lt(a@, b@) == lex_lt(a@.skip(k as int), b@.skip(k as int)),
        decreases a@.len() - k,
    {
        assert(a@.skip(k as int)[0] == a@[k as int] && b@.skip(k as int)[0] == b@[k as int]);
        if a[k] != b[k] {
            return a[k] < b[k];
        }
        assert(a@.skip(k as int).drop_first() =~= a@.skip(k + 1));
        assert(b@.skip(k as int).drop_first() =~= b@.skip(k + 1));
        k += 1;
    }
    k < b.len()
}

/// Whether the text `a` comes before the text `b`: the order of their bytes in UTF-8.
pub open spec fn text_lt(a: Seq<char>, b: Seq<char>) -> bool {
    lex_lt(encode_utf8(a), encode_utf8(b))
}

/// Of two different texts one comes before the other.
pub proof fn lemma_text_total(a: Seq<char>, b: Seq<char>)
    requires
        a != b,
    ensures
        text_lt(a, b) || text_lt(b, a),
{
    encode_utf8_decode_utf8(a);
    encode_utf8_decode_utf8(b);
    assert(encode_utf8(a) != encode_utf8(b)) by {
        if encode_utf8(a) == encode_utf8(b) {
            assert(decode_utf8(encode_utf8(a)) == decode_utf8(encode_utf8(b)));
        }
    }
    lemma_lex_total(encode_utf8(a), encode_utf8(b));
}

/// Whether the string `a` comes before the string `b`.
pub fn str_before(a: &str, b: &str) -> (r: bool)
    ensures
        r == text_lt(a@, b@),
{
    bytes_before(a.as_bytes(), b.as_bytes())
}

/// Whether two strings hold the same text.
pub fn str_same(a: &str, b: &str) -> (r: bool)
    ensures
        r == (a@ == b@),
{
    let x = a.as_bytes();
    let y = b.as_bytes();
    proof {
        encode_utf8_decode_utf8(a@);
        encode_utf8_decode_utf8(b@);
    }
    if x.len() != y.len() {
        return false;
    }
    let mut k: usize = 0;
    while k < x.len()
        invariant
            x@.len() == y@.len(),
            x@ == encode_utf8(a@),
            y@ == encode_utf8(b@),
            k <= x@.len(),
            forall|j: int| 0 <= j < k ==> x@[j] == y@[j],
        decreases x@.len() - k,
    {
        if x[k] != y[k] {
            return false;
        }
        k += 1;
    }
    assert(x@ =~= y@);
    true
}

/// A key of a table: a value with a view, and a strict total order on the views.
pub trait Key: DeepView + Sized {
    /// Whether the view `a` comes before the view `b`.
    spec fn key_lt(a: Self::V, b: Self::V) -> bool;

    /// Nothing comes before itself.
    proof fn irreflexive(a: Self::V)
        ensures
            !Self::key_lt(a, a),
    ;

    /// What comes before something that comes before a third comes before the third.
    proof fn transitive(a: Self::V, b: Self::V, c: Self::V)
        requires
            Self::key_lt(a, b),
            Self::key_lt(b, c),
        ensures
            Self::key_lt(a, c),
    ;

    /// Of two different views one comes before the other.
    proof fn total(a: Self::V, b: Self::V)
        requires
            a != b,
        ensures
            Self::key_lt(a, b) || Self::key_lt(b, a),
    ;

    /// Whether `self` comes before `other`.
    fn before(&self, other: &Self) -> (r: bool)
        ensures
            r == Self::key_lt(self.deep_view(), other.deep_view()),
    ;

    /// Whether `self` and `other` are the same key.
    fn same(&self, other: &Self) -> (r: bool)
        ensures
            r == (self.deep_view() == other.deep_view()),
    ;

    /// A copy of the key.
    fn duplicate(&self) -> (r: Self)
        ensures
            r.deep_view() == self.deep_view(),
    ;
}

impl Key for String {
    open spec fn key_lt(a: Seq<char>, b: Seq<char>) -> bool {
        text_lt(a, b)
    }

    proof fn irreflexive(a: Seq<char>) {
        lemma_lex_irreflexive(encode_utf8(a));
    }

    proof fn transitive(a: Seq<char>, b: Seq<char>, c: Seq<char>) {
        lemma_lex_transitive(encode_utf8(a), encode_utf8(b), encode_utf8(c));
    }

    proof fn total(a: Seq<char>, b: Seq<char>) {
        lemma_text_total(a, b);
    }

    fn before(&self, other: &Self) -> (r: bool) {
        str_before(self.as_str(), other.as_str())
    }

    fn same(&self, other: &Self) -> (r: bool) {
        *self == *other
    }

    fn duplicate(&self) -> (r: Self) {
        self.clone()
    }
}


/// The views of the elements of a sequence, in order.
pub open spec fn deep<T: DeepView>(s: Seq<T>) -> Seq<T::V> {
    Seq::new(s.len(), |i: int| s[i].deep_view())
}

/// The view of a vector is the views of its elements.
pub proof fn lemma_deep_vec<T: DeepView>(v: Vec<T>)
    ensures
        v.deep_view() == deep(v@),
{
    assert(v.deep_view() =~= deep(v@));
}

/// The position of the first key that does not come before `k`, or the number of keys.
pub open spec fn slot<K: Key>(keys: Seq<K::V>, k: K::V) -> int
    decreases keys.len(),
{
    if keys.len() == 0 || !K::key_lt(keys[0], k) {
        0
    } else {
        1 + slot::<K>(keys.drop_first(), k)
    }
}

/// Whether `k` stands at its slot.
pub open spec fn holds<K: Key>(keys: Seq<K::V>, k: K::V) -> bool {
    let i = slot::<K>(keys, k);
    0 <= i < keys.len() && keys[i] == k
}

/// Whether each key comes before the next.
pub open spec fn ascending<K: Key>(keys: Seq<K::V>) -> bool {
    forall|i: int, j: int| 0 <= i < j < keys.len() ==> K::key_lt(#[trigger] keys[i], #[trigger] keys[j])
}

/// A place is the slot of a key if every key before it comes before the key and the key at it does not.
pub proof fn lemma_slot_is<K: Key>(keys: Seq<K::V>, k: K::V, i: int)
    requires
        0 <= i <= keys.len(),
        forall|j: int| 0 <= j < i ==> K::key_lt(#[trigger] keys[j], k),
        i < keys.len() ==> !K::key_lt(keys[i], k),
    ensures
        slot::<K>(keys, k) == i,
    decreases keys.len(),
{
    if keys.len() == 0 || !K::key_lt(keys[0], k) {
        if i > 0 {
            assert(K::key_lt(keys[0], k));
        }
    } else {
        let t = keys.drop_first();
        assert forall|j: int| 0 <= j < i - 1 implies K::key_lt(#[trigger] t[j], k) by {
            assert(t[j] == keys[j + 1]);
        }
        if i < keys.len() {
            assert(t[i - 1] == keys[i]);
        }
        lemma_slot_is::<K>(t, k, i - 1);
    }
}

/// Every key before the slot of a key comes before the key, and the key at the slot does not.
pub proof fn lemma_slot<K: Key>(keys: Seq<K::V>, k: K::V)
    ensures
        0 <= slot::<K>(keys, k) <= keys.len(),
        forall|j: int| 0 <= j < slot::<K>(keys, k) ==> K::key_lt(#[trigger] keys[j], k),
        slot::<K>(keys, k) < keys.len() ==> !K::key_lt(keys[slot::<K>(keys, k)], k),
    decreases keys.len(),
{
    if keys.len() == 0 || !K::key_lt(keys[0], k) {
    } else {
        let t = keys.drop_first();
        lemma_slot::<K>(t, k);
        assert forall|j: int| 0 <= j < slot::<K>(keys, k) implies K::key_lt(#[trigger] keys[j], k) by {
            if j > 0 {
                assert(keys[j] == t[j - 1]);
            }
        }
        if slot::<K>(keys, k) < keys.len() {
            assert(t[slot::<K>(t, k)] == keys[slot::<K>(keys, k)]);
        }
    }
}

/// What a table holds: its keys in order, and the value of each.
pub struct TableModel<KV, VV> {
    pub keys: Seq<KV>,
    pub values: Seq<VV>,
}

/// The table without entries.
pub open spec fn table_empty<KV, VV>() -> TableModel<KV, VV> {
    TableModel { keys: Seq::empty(), values: Seq::empty() }
}

/// The value that a table holds for `k`.
pub open spec fn table_get<K: Key, VV>(m: TableModel<K::V, VV>, k: K::V) -> Option<VV> {
    if holds::<K>(m.keys, k) && slot::<K>(m.keys, k) < m.values.len() {
        Some(m.values[slot::<K>(m.keys, k)])
    } else {
        None
    }
}

/// The table with the value of `k` set to `v`: in place where the table holds
/// `k`, else as a new entry at the slot of `k`.
pub open spec fn table_put<K: Key, VV>(m: TableModel<K::V, VV>, k: K::V, v: VV) -> TableModel<
    K::V,
    VV,
> {
    let i = slot::<K>(m.keys, k);
    if holds::<K>(m.keys, k) {
        TableModel { keys: m.keys, values: m.values.update(i, v) }
    } else {
        TableModel { keys: m.keys.insert(i, k), values: m.values.insert(i, v) }
    }
}

/// A table is well formed if each key has one value and the keys ascend.
pub open spec fn table_wf<K: Key, VV>(m: TableModel<K::V, VV>) -> bool {
    m.keys.len() == m.values.len() && ascending::<K>(m.keys)
}

/// Setting a value keeps a table well formed.
pub proof fn lemma_put_wf<K: Key, VV>(m: TableModel<K::V, VV>, k: K::V, v: VV)
    requires
        table_wf::<K, VV>(m),
    ensures
        table_wf::<K, VV>(table_put::<K, VV>(m, k, v)),
{
    let i = slot::<K>(m.keys, k);
    lemma_slot::<K>(m.keys, k);
    if !holds::<K>(m.keys, k) {
        let keys2 = m.keys.insert(i, k);
        assert forall|a: int, b: int| 0 <= a < b < keys2.len() implies K::key_lt(
            #[trigger] keys2[a],
            #[trigger] keys2[b],
        ) by {
            if b == i {
                assert(keys2[a] == m.keys[a]);
            } else if a == i {
                assert(keys2[b] == m.keys[b - 1]);
                assert(m.keys[i] != k);
                K::total(m.keys[i], k);
                if b - 1 > i {
                    K::transitive(k, m.keys[i], m.keys[b - 1]);
                }
            } else {
                let a0 = if a < i {
                    a
                } else {
                    a - 1
                };
                let b0 = if b < i {
                    b
                } else {
                    b - 1
                };
                assert(keys2[a] == m.keys[a0] && keys2[b] == m.keys[b0]);
            }
        }
    }
}

/// After setting the value of `k`, the table holds it for `k` and holds for
/// every other key what it held before.
pub proof fn lemma_get_put<K: Key, VV>(m: TableModel<K::V, VV>, k: K::V, v: VV, q: K::V)
    requires
        table_wf::<K, VV>(m),
    ensures
        table_get::<K, VV>(table_put::<K, VV>(m, k, v), q) == if q == k {
            Some(v)
        } else {
            table_get::<K, VV>(m, q)
        },
{
    let i = slot::<K>(m.keys, k);
    let m2 = table_put::<K, VV>(m, k, v);
    lemma_slot::<K>(m.keys, k);
    lemma_slot::<K>(m.keys, q);
    lemma_put_wf::<K, VV>(m, k, v);
    let jq = slot::<K>(m.keys, q);
    if holds::<K>(m.keys, k) {
        assert(m2.keys == m.keys);
        if q != k && holds::<K>(m.keys, q) {
            assert(jq != i);
        }
    } else {
        // the keys below the slot of `k` keep their place, the others move up by one
        if q == k {
            assert(m2.keys[i] == k);
            assert forall|j: int| 0 <= j < i implies K::key_lt(#[trigger] m2.keys[j], k) by {
                assert(m2.keys[j] == m.keys[j]);
            }
            K::irreflexive(k);
            lemma_slot_is::<K>(m2.keys, k, i);
        } else {
            if i < m.keys.len() {
                K::total(m.keys[i], k);
            }
            if K::key_lt(q, k) {
                // the slot of `q` is at or below the slot of `k`
                if jq > i {
                    assert(K::key_lt(m.keys[i], q));
                    K::transitive(m.keys[i], q, k);
                    assert(false);
                }
                assert forall|j: int| 0 <= j < jq implies K::key_lt(#[trigger] m2.keys[j], q) by {
                    assert(m2.keys[j] == m.keys[j]);
                }
                if jq < i {
                    assert(m2.keys[jq] == m.keys[jq]);
                } else {
                    assert(m2.keys[jq] == k);
                    if K::key_lt(k, q) {
                        K::transitive(k, q, k);
                        K::irreflexive(k);
                    }
                }
                lemma_slot_is::<K>(m2.keys, q, jq);
                if jq == i {
                    assert(!holds::<K>(m2.keys, q));
                    if jq < m.keys.len() && m.keys[jq] == q {
                        K::transitive(q, k, m.keys[i]);
                        K::irreflexive(q);
                    }
                } else {
                    assert(m2.values[jq] == m.values[jq]);
                }
            } else {
                K::total(q, k);
                assert(K::key_lt(k, q));
                // the slot of `q` is at or above the slot of `k`
                assert(jq >= i) by {
                    if jq < i {
                        assert(K::key_lt(m.keys[jq], k));
                        K::transitive(m.keys[jq], k, q);
                    }
                }
                assert forall|j: int| 0 <= j < jq + 1 implies K::key_lt(
                    #[trigger] m2.keys[j],
                    q,
                ) by {
                    if j < i {
                        assert(m2.keys[j] == m.keys[j]);
                    } else if j > i {
                        assert(m2.keys[j] == m.keys[j - 1]);
                    }
                }
                if jq < m.keys.len() {
                    assert(m2.keys[jq + 1] == m.keys[jq]);
                    assert(m2.values[jq + 1] == m.values[jq]);
                }
                lemma_slot_is::<K>(m2.keys, q, jq + 1);
            }
        }
    }
}

/// The first `n` entries of a table.
pub open spec fn table_take<KV, VV>(m: TableModel<KV, VV>, n: int) -> TableModel<KV, VV> {
    TableModel { keys: m.keys.take(n), values: m.values.take(n) }
}

/// Putting the entry at `n` of a well-formed table behind the first `n`
/// entries gives the first `n + 1` entries: a table is what its entries,
/// put in their order, make.
pub proof fn lemma_put_next<K: Key, VV>(m: TableModel<K::V, VV>, n: int)
    requires
        table_wf::<K, VV>(m),
        0 <= n < m.keys.len(),
    ensures
        table_put::<K, VV>(table_take(m, n), m.keys[n], m.values[n]) == table_take(m, n + 1),
{
    let t = table_take(m, n);
    let k = m.keys[n];
    assert forall|j: int| 0 <= j < n implies K::key_lt(#[trigger] t.keys[j], k) by {
        assert(t.keys[j] == m.keys[j]);
    }
    lemma_slot_is::<K>(t.keys, k, n);
    assert(!holds::<K>(t.keys, k));
    assert(t.keys.insert(n, k) =~= m.keys.take(n + 1));
    assert(t.values.insert(n, m.values[n]) =~= m.values.take(n + 1));
}

/// A table whose keys ascend: each key occurs once, and the entries are kept
/// and listed in the order of the keys.
#[derive(Debug)]
pub struct Table<K, V> {
    pub keys: Vec<K>,
    pub values: Vec<V>,
}

impl<K: Key, V: DeepView> DeepView for Table<K, V> {
    type V = TableModel<K::V, V::V>;

    open spec fn deep_view(&self) -> TableModel<K::V, V::V> {
        TableModel { keys: deep(self.keys@), values: deep(self.values@) }
    }
}

impl<K: Key, V: DeepView> Table<K, V> {
    /// Whether each key has one value and the keys ascend.
    pub open spec fn wf(&self) -> bool {
        table_wf::<K, V::V>(self.deep_view())
    }

    /// The table without entries.
    pub fn new() -> (t: Self)
        ensures
            t.deep_view() == table_empty::<K::V, V::V>(),
            t.wf(),
    {
        let t = Table { keys: Vec::new(), values: Vec::new() };
        assert(t.deep_view().keys =~= Seq::empty());
        assert(t.deep_view().values =~= Seq::empty());
        t
    }

    /// The number of entries.
    pub fn len(&self) -> (n: usize)
        ensures
            n == self.deep_view().keys.len(),
    {
        self.keys.len()
    }

    /// Whether the table has no entry.
    pub fn is_empty(&self) -> (b: bool)
        ensures
            b == (self.deep_view().keys.len() == 0),
    {
        self.keys.len() == 0
    }

    /// The slot of `key`.
    pub fn slot_of(&self, key: &K) -> (i: usize)
        ensures
            i == slot::<K>(self.deep_view().keys, key.deep_view()),
            i <= self.keys@.len(),
    {
        let mut i: usize = 0;
        while i < self.keys.len() && self.keys[i].before(key)
            invariant
                i <= self.keys@.len(),
                forall|j: int|
                    0 <= j < i ==> K::key_lt(
                        #[trigger] deep(self.keys@)[j],
                        key.deep_view(),
                    ),
            decreases self.keys@.len() - i,
        {
            i += 1;
        }
        proof {
            lemma_slot_is::<K>(deep(self.keys@), key.deep_view(), i as int);
        }
        i
    }

    /// The position of `key`, if the table holds it.
    pub fn find(&self, key: &K) -> (r: Option<usize>)
        ensures
            r is Some <==> holds::<K>(self.deep_view().keys, key.deep_view()),
            r is Some ==> r->0 == slot::<K>(self.deep_view().keys, key.deep_view()) && r->0
                < self.keys@.len(),
    {
        let i = self.slot_of(key);
        if i < self.keys.len() && self.keys[i].same(key) {
            Some(i)
        } else {
            None
        }
    }

    /// Whether the table holds `key`.
    pub fn contains_key(&self, key: &K) -> (b: bool)
        ensures
            b == holds::<K>(self.deep_view().keys, key.deep_view()),
    {
        self.find(key).is_some()
    }

    /// The value of `key`, if the table holds it.
    pub fn get(&self, key: &K) -> (r: Option<&V>)
        ensures
            match r {
                Some(v) => table_get::<K, V::V>(self.deep_view(), key.deep_view()) == Some(
                    v.deep_view(),
                ) && *v == self.values@[slot::<K>(self.deep_view().keys, key.deep_view())],
                None => table_get::<K, V::V>(self.deep_view(), key.deep_view()) is None,
            },
    {
        match self.find(key) {
            Some(i) => if i < self.values.len() {
                Some(&self.values[i])
            } else {
                None
            },
            None => None,
        }
    }

    /// Sets the value of `key`.
    pub fn insert(&mut self, key: K, value: V)
        requires
            old(self).keys@.len() == old(self).values@.len(),
        ensures
            final(self).deep_view() == table_put::<K, V::V>(
                old(self).deep_view(),
                key.deep_view(),
                value.deep_view(),
            ),
            final(self).keys@.len() == final(self).values@.len(),
            old(self).wf() ==> final(self).wf(),
    {
        let i = self.slot_of(&key);
        let ghost before = self.deep_view();
        proof {
            if old(self).wf() {
                lemma_put_wf::<K, V::V>(before, key.deep_view(), value.deep_view());
            }
        }
        if i < self.keys.len() && self.keys[i].same(&key) {
            self.values.set(i, value);
            assert(self.deep_view().values =~= before.values.update(i as int, value.deep_view()));
            assert(self.deep_view().keys =~= before.keys);
        } else {
            self.keys.insert(i, key);
            self.values.insert(i, value);
            assert(self.deep_view().keys =~= before.keys.insert(i as int, key.deep_view()));
            assert(self.deep_view().values =~= before.values.insert(
                i as int,
                value.deep_view(),
            ));
        }
    }
}

} // verus!
