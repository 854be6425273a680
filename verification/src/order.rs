//! The order of texts by their UTF-8 bytes, and maps from texts that keep their keys in it.

use vstd::prelude::*;
use vstd::utf8::encode_utf8;

verus! {

/// `a` comes before `b`: at the first difference its byte is smaller, or it ends there.
pub open spec fn bytes_less(a: Seq<u8>, b: Seq<u8>) -> bool
    decreases b.len(),
{
    if b.len() == 0 {
        false
    } else if a.len() == 0 {
        true
    } else if a[0] != b[0] {
        a[0] < b[0]
    } else {
        bytes_less(a.drop_first(), b.drop_first())
    }
}

/// `a` comes before `b` in the order of their UTF-8 bytes.
pub open spec fn text_less(a: Seq<char>, b: Seq<char>) -> bool {
    bytes_less(encode_utf8(a), encode_utf8(b))
}

proof fn lemma_bytes_order(a: Seq<u8>, b: Seq<u8>)
    ensures
        !bytes_less(a, a),
        !(bytes_less(a, b) && bytes_less(b, a)),
        bytes_less(a, b) || bytes_less(b, a) || a == b,
    decreases a.len() + b.len(),
{
    if a.len() > 0 && b.len() > 0 {
        lemma_bytes_order(a.drop_first(), b.drop_first());
        if a[0] == b[0] && a.drop_first() == b.drop_first() {
            assert(a =~= seq![a[0]] + a.drop_first());
            assert(b =~= seq![b[0]] + b.drop_first());
        }
    } else if a.len() > 0 {
        lemma_bytes_order(a.drop_first(), b);
    } else if b.len() == 0 {
        assert(a =~= b);
    }
}

proof fn lemma_bytes_transitive(a: Seq<u8>, b: Seq<u8>, c: Seq<u8>)
    requires
        bytes_less(a, b),
        bytes_less(b, c),
    ensures
        bytes_less(a, c),
    decreases c.len(),
{
    if a.len() > 0 && a[0] == b[0] && b[0] == c[0] {
        lemma_bytes_transitive(a.drop_first(), b.drop_first(), c.drop_first());
    }
}

/// The order of texts is a strict total order.
pub proof fn law_text_order(a: Seq<char>, b: Seq<char>, c: Seq<char>)
    ensures
        !text_less(a, a),
        !(text_less(a, b) && text_less(b, a)),
        text_less(a, b) || text_less(b, a) || a == b,
        text_less(a, b) && text_less(b, c) ==> text_less(a, c),
{
    lemma_bytes_order(encode_utf8(a), encode_utf8(a));
    lemma_bytes_order(encode_utf8(a), encode_utf8(b));
    vstd::utf8::encode_utf8_decode_utf8(a);
    vstd::utf8::encode_utf8_decode_utf8(b);
    if text_less(a, b) && text_less(b, c) {
        lemma_bytes_transitive(encode_utf8(a), encode_utf8(b), encode_utf8(c));
    }
}

/// Whether `a` comes before `b`.
pub fn less(a: &str, b: &str) -> (r: bool)
    ensures
        r == text_less(a@, b@),
{
    let x = a.as_bytes();
    let y = b.as_bytes();
    let mut i: usize = 0;
    assert(x@.skip(0) =~= x@ && y@.skip(0) =~= y@);
    while i < x.len() && i < y.len()
        invariant
            i <= x@.len(),
            i <= y@.len(),
            x@ == encode_utf8(a@),
            y@ == encode_utf8(b@),
            bytes_less(x@.skip(i as int), y@.skip(i as int)) == bytes_less(x@, y@),
        decreases x@.len() - i,
    {
        assert(x@.skip(i as int).drop_first() =~= x@.skip(i + 1));
        assert(y@.skip(i as int).drop_first() =~= y@.skip(i + 1));
        if x[i] != y[i] {
            return x[i] < y[i];
        }
        i = i + 1;
    }
    i < y.len()
}

/// A map from texts that keeps its entries in the order of their keys.
pub struct TextMap<V> {
    pub entries: Vec<(String, V)>,
}

/// The value of the entry with the key `key`, if there is one.
pub open spec fn lookup<V>(entries: Seq<(String, V)>, key: Seq<char>) -> Option<V>
    decreases entries.len(),
{
    if entries.len() == 0 {
        None
    } else if entries.last().0@ == key {
        Some(entries.last().1)
    } else {
        lookup(entries.drop_last(), key)
    }
}

/// The keys come in their order, none twice.
pub open spec fn keys_ordered<V>(entries: Seq<(String, V)>) -> bool {
    forall|i: int, j: int|
        0 <= i < j < entries.len() ==> text_less(
            (#[trigger] entries[i]).0@,
            (#[trigger] entries[j]).0@,
        )
}

impl<V> View for TextMap<V> {
    type V = Map<Seq<char>, V>;

    open spec fn view(&self) -> Map<Seq<char>, V> {
        entries_map(self.entries@)
    }
}

/// The map of a list of entries.
pub open spec fn entries_map<V>(entries: Seq<(String, V)>) -> Map<Seq<char>, V> {
    Map::new(
        |k: Seq<char>| lookup(entries, k) is Some,
        |k: Seq<char>| lookup(entries, k)->Some_0,
    )
}

/// The value that is found is that of an entry with the key.
pub proof fn lemma_lookup<V>(entries: Seq<(String, V)>, key: Seq<char>)
    ensures
        lookup(entries, key) matches Some(v) ==> exists|i: int|
            0 <= i < entries.len() && #[trigger] entries[i].0@ == key && entries[i].1 == v,
        lookup(entries, key) is None ==> forall|i: int|
            0 <= i < entries.len() ==> #[trigger] entries[i].0@ != key,
    decreases entries.len(),
{
    if entries.len() > 0 && entries.last().0@ != key {
        let front = entries.drop_last();
        lemma_lookup(front, key);
        if lookup(front, key) is Some {
            let i = choose|i: int|
                0 <= i < front.len() && #[trigger] front[i].0@ == key && front[i].1 == lookup(
                    front,
                    key,
                )->Some_0;
            assert(entries[i].0@ == key);
        } else {
            assert forall|i: int| 0 <= i < entries.len() implies #[trigger] entries[i].0@
                != key by {
                if i < front.len() {
                    assert(front[i].0@ != key);
                }
            }
        }
    } else if entries.len() > 0 {
        assert(entries[entries.len() - 1].0@ == key);
    }
}

/// The entry at each place is the one that is found by its key.
pub proof fn lemma_lookup_at<V>(entries: Seq<(String, V)>, i: int)
    requires
        keys_ordered(entries),
        0 <= i < entries.len(),
    ensures
        lookup(entries, entries[i].0@) == Some(entries[i].1),
    decreases entries.len(),
{
    if i < entries.len() - 1 {
        let front = entries.drop_last();
        law_text_order(entries[i].0@, entries.last().0@, entries.last().0@);
        assert(text_less(entries[i].0@, entries[entries.len() - 1].0@));
        assert forall|a: int, b: int| 0 <= a < b < front.len() implies text_less(
            (#[trigger] front[a]).0@,
            (#[trigger] front[b]).0@,
        ) by {
            assert(text_less(entries[a].0@, entries[b].0@));
        }
        lemma_lookup_at(front, i);
    }
}

impl<V> TextMap<V> {
    /// The keys come in their order, none twice.
    pub open spec fn wf(self) -> bool {
        keys_ordered(self.entries@)
    }

    /// An empty map.
    pub fn new() -> (m: TextMap<V>)
        ensures
            m.wf(),
            m@ == Map::<Seq<char>, V>::empty(),
            m.entries@.len() == 0,
    {
        let m = TextMap { entries: Vec::new() };
        assert(m@ =~= Map::<Seq<char>, V>::empty());
        m
    }

    /// Sets the value of a key.
    pub fn insert(&mut self, key: String, value: V)
        requires
            old(self).wf(),
        ensures
            final(self).wf(),
            final(self)@ == old(self)@.insert(key@, value),
            final(self).entries@.len() <= old(self).entries@.len() + 1,
    {
        let ghost before = self.entries@;
        let ghost k = key@;
        let mut at: usize = self.entries.len();
        while at > 0 && less(key.as_str(), self.entries[at - 1].0.as_str())
            invariant
                k == key@,
                self.entries@ == before,
                at <= before.len(),
                forall|i: int| at <= i < before.len() ==> text_less(k, #[trigger] before[i].0@),
            decreases at,
        {
            at = at - 1;
        }
        proof {
            assert forall|i: int| 0 <= i < at - 1 implies text_less(
                #[trigger] before[i].0@,
                k,
            ) by {
                law_text_order(before[at - 1].0@, k, k);
                law_text_order(before[i].0@, before[at - 1].0@, k);
            }
            if at > 0 {
                law_text_order(before[at - 1].0@, k, k);
            }
        }
        if at > 0 && crate::text::same_text(key.as_str(), self.entries[at - 1].0.as_str()) {
            self.entries[at - 1] = (key, value);
            proof {
                let after = self.entries@;
                let spot = (key, value);
                assert(after =~= before.update(at - 1, spot));
                assert(before[at - 1].0@ == k);
                assert forall|i: int, j: int| 0 <= i < j < after.len() implies text_less(
                    (#[trigger] after[i]).0@,
                    (#[trigger] after[j]).0@,
                ) by {
                    assert(text_less(before[i].0@, before[j].0@));
                }
                assert(after[at - 1].0@ == k && after[at - 1].1 == value);
                assert forall|i: int| 0 <= i < after.len() && after[i].0@ != k implies before.contains(
                    #[trigger] after[i],
                ) by {
                    assert(before[i] == after[i]);
                }
                assert forall|i: int|
                    0 <= i < before.len() && before[i].0@ != k implies after.contains(
                    #[trigger] before[i],
                ) by {
                    assert(after[i] == before[i]);
                }
                lemma_same_map(before, after, k, value);
            }
        } else {
            self.entries.insert(at, (key, value));
            proof {
                let after = self.entries@;
                let spot = (key, value);
                assert(after =~= before.insert(at as int, spot));
                if at > 0 {
                    assert(text_less(before[at - 1].0@, k));
                }
                assert forall|i: int, j: int| 0 <= i < j < after.len() implies text_less(
                    (#[trigger] after[i]).0@,
                    (#[trigger] after[j]).0@,
                ) by {
                    let a = if i < at { i } else { i - 1 };
                    let b = if j < at { j } else { j - 1 };
                    if i == at {
                        assert(text_less(k, before[b].0@));
                    } else if j == at {
                        assert(text_less(before[a].0@, k));
                    } else {
                        assert(text_less(before[a].0@, before[b].0@));
                    }
                }
                assert(after[at as int].0@ == k && after[at as int].1 == value);
                assert forall|i: int| 0 <= i < after.len() && after[i].0@ != k implies before.contains(
                    #[trigger] after[i],
                ) by {
                    let a = if i < at { i } else { i - 1 };
                    assert(before[a] == after[i]);
                }
                assert forall|i: int|
                    0 <= i < before.len() && before[i].0@ != k implies after.contains(
                    #[trigger] before[i],
                ) by {
                    let a = if i < at { i } else { i + 1 };
                    assert(after[a] == before[i]);
                }
                lemma_same_map(before, after, k, value);
            }
        }
    }

    /// The value of a key.
    pub fn get(&self, key: &str) -> (r: Option<&V>)
        requires
            self.wf(),
        ensures
            match r {
                Some(v) => self@.contains_key(key@) && *v == self@[key@],
                None => !self@.contains_key(key@),
            },
    {
        let mut i: usize = self.entries.len();
        assert(self.entries@.take(i as int) =~= self.entries@);
        while i > 0
            invariant
                i <= self.entries@.len(),
                lookup(self.entries@.take(i as int), key@) == lookup(self.entries@, key@),
            decreases i,
        {
            assert(self.entries@.take(i as int).drop_last() =~= self.entries@.take(i - 1));
            if crate::text::same_text(self.entries[i - 1].0.as_str(), key) {
                return Some(&self.entries[i - 1].1);
            }
            i = i - 1;
        }
        None
    }
}

/// `after` has the entries of `before` and the one for `k`.
proof fn lemma_same_map<V>(
    before: Seq<(String, V)>,
    after: Seq<(String, V)>,
    k: Seq<char>,
    value: V,
)
    requires
        keys_ordered(before),
        keys_ordered(after),
        exists|i: int| 0 <= i < after.len() && #[trigger] after[i].0@ == k && after[i].1 == value,
        forall|i: int|
            0 <= i < after.len() && after[i].0@ != k ==> before.contains(#[trigger] after[i]),
        forall|i: int|
            0 <= i < before.len() && before[i].0@ != k ==> after.contains(#[trigger] before[i]),
    ensures
        entries_map(after) == entries_map(before).insert(k, value),
{
    let at = choose|i: int|
        0 <= i < after.len() && #[trigger] after[i].0@ == k && after[i].1 == value;
    lemma_lookup_at(after, at);
    assert forall|x: Seq<char>| x != k implies #[trigger] lookup(after, x) == lookup(before, x) by {
        lemma_lookup(after, x);
        lemma_lookup(before, x);
        if lookup(after, x) is Some {
            let i = choose|i: int|
                0 <= i < after.len() && #[trigger] after[i].0@ == x && after[i].1 == lookup(
                    after,
                    x,
                )->Some_0;
            assert(before.contains(after[i]));
            let j = choose|j: int| 0 <= j < before.len() && before[j] == after[i];
            lemma_lookup_at(before, j);
        } else if lookup(before, x) is Some {
            let i = choose|i: int|
                0 <= i < before.len() && #[trigger] before[i].0@ == x && before[i].1 == lookup(
                    before,
                    x,
                )->Some_0;
            assert(after.contains(before[i]));
            let j = choose|j: int| 0 <= j < after.len() && after[j] == before[i];
            assert(after[j].0@ == x);
        }
    }
    assert(entries_map(after) =~= entries_map(before).insert(k, value));
}

/// The value of the last pair with the key `key`, if there is one.
pub open spec fn pair_value<T>(pairs: Seq<(Seq<char>, T)>, key: Seq<char>) -> Option<T>
    decreases pairs.len(),
{
    if pairs.len() == 0 {
        None
    } else if pairs.last().0 == key {
        Some(pairs.last().1)
    } else {
        pair_value(pairs.drop_last(), key)
    }
}

/// The map of a list of pairs: the last pair of a key counts.
pub open spec fn pairs_map<T>(pairs: Seq<(Seq<char>, T)>) -> Map<Seq<char>, T> {
    Map::new(
        |k: Seq<char>| pair_value(pairs, k) is Some,
        |k: Seq<char>| pair_value(pairs, k)->Some_0,
    )
}

/// The keys of the pairs come in their order, none twice.
pub open spec fn pairs_ordered<T>(pairs: Seq<(Seq<char>, T)>) -> bool {
    forall|i: int, j: int|
        0 <= i < j < pairs.len() ==> text_less((#[trigger] pairs[i]).0, (#[trigger] pairs[j]).0)
}

/// The pairs of a map in the order of their keys.
pub open spec fn in_order<T>(m: Map<Seq<char>, T>) -> Seq<(Seq<char>, T)> {
    choose|pairs: Seq<(Seq<char>, T)>| #[trigger] pairs_ordered(pairs) && pairs_map(pairs) == m
}

/// One more pair sets its key.
pub proof fn lemma_pairs_push<T>(pairs: Seq<(Seq<char>, T)>, k: Seq<char>, v: T)
    ensures
        pairs_map(pairs.push((k, v))) == pairs_map(pairs).insert(k, v),
{
    let more = pairs.push((k, v));
    assert(more.drop_last() =~= pairs);
    assert(pairs_map(more) =~= pairs_map(pairs).insert(k, v));
}

proof fn lemma_pair_value<T>(pairs: Seq<(Seq<char>, T)>, key: Seq<char>)
    ensures
        pair_value(pairs, key) matches Some(v) ==> exists|i: int|
            0 <= i < pairs.len() && #[trigger] pairs[i].0 == key,
        pair_value(pairs, key) is None ==> forall|i: int|
            0 <= i < pairs.len() ==> #[trigger] pairs[i].0 != key,
    decreases pairs.len(),
{
    if pairs.len() > 0 && pairs.last().0 != key {
        let front = pairs.drop_last();
        lemma_pair_value(front, key);
        if pair_value(front, key) is Some {
            let i = choose|i: int| 0 <= i < front.len() && #[trigger] front[i].0 == key;
            assert(pairs[i].0 == key);
        } else {
            assert forall|i: int| 0 <= i < pairs.len() implies #[trigger] pairs[i].0 != key by {
                if i < front.len() {
                    assert(front[i].0 != key);
                }
            }
        }
    } else if pairs.len() > 0 {
        assert(pairs[pairs.len() - 1].0 == key);
    }
}

proof fn lemma_ordered_front<T>(pairs: Seq<(Seq<char>, T)>)
    requires
        pairs_ordered(pairs),
        pairs.len() > 0,
    ensures
        pairs_ordered(pairs.drop_last()),
        pairs_map(pairs.drop_last()) == pairs_map(pairs).remove(pairs.last().0),
        forall|i: int|
            0 <= i < pairs.len() ==> #[trigger] pairs[i].0 == pairs.last().0 || text_less(
                pairs[i].0,
                pairs.last().0,
            ),
{
    let front = pairs.drop_last();
    let k = pairs.last().0;
    assert forall|i: int, j: int| 0 <= i < j < front.len() implies text_less(
        (#[trigger] front[i]).0,
        (#[trigger] front[j]).0,
    ) by {
        assert(text_less(pairs[i].0, pairs[j].0));
    }
    assert forall|i: int| 0 <= i < pairs.len() implies #[trigger] pairs[i].0 == k || text_less(
        pairs[i].0,
        k,
    ) by {
        if i < front.len() {
            assert(text_less(pairs[i].0, pairs[pairs.len() - 1].0));
        }
    }
    lemma_pair_value(front, k);
    if pair_value(front, k) is Some {
        let i = choose|i: int| 0 <= i < front.len() && #[trigger] front[i].0 == k;
        assert(text_less(pairs[i].0, pairs[pairs.len() - 1].0));
        law_text_order(k, k, k);
    }
    assert(pairs_map(front) =~= pairs_map(pairs).remove(k));
}

/// The order of the keys fixes the list of pairs of a map.
pub proof fn law_order_is_unique<T>(a: Seq<(Seq<char>, T)>, b: Seq<(Seq<char>, T)>)
    requires
        pairs_ordered(a),
        pairs_ordered(b),
        pairs_map(a) == pairs_map(b),
    ensures
        a == b,
    decreases a.len(),
{
    if a.len() == 0 {
        if b.len() > 0 {
            assert(pairs_map(b).contains_key(b.last().0));
            assert(pairs_map(a).contains_key(b.last().0));
        }
        assert(a =~= b);
    } else {
        let ka = a.last().0;
        assert(pairs_map(a).contains_key(ka));
        assert(pairs_map(b).contains_key(ka));
        lemma_pair_value(b, ka);
        let i = choose|i: int| 0 <= i < b.len() && #[trigger] b[i].0 == ka;
        let kb = b.last().0;
        assert(pairs_map(b).contains_key(kb));
        assert(pairs_map(a).contains_key(kb));
        lemma_pair_value(a, kb);
        let j = choose|j: int| 0 <= j < a.len() && #[trigger] a[j].0 == kb;
        lemma_ordered_front(a);
        lemma_ordered_front(b);
        assert(b[i].0 == kb || text_less(b[i].0, kb));
        assert(a[j].0 == ka || text_less(a[j].0, ka));
        law_text_order(ka, kb, kb);
        assert(ka == kb);
        assert(pairs_map(a)[ka] == pairs_map(b)[kb]);
        assert(pairs_map(a)[ka] == a.last().1 && pairs_map(b)[kb] == b.last().1);
        assert(a.last() == b.last());
        law_order_is_unique(a.drop_last(), b.drop_last());
        assert(a =~= a.drop_last().push(a.last()));
        assert(b =~= b.drop_last().push(b.last()));
    }
}

/// A list in the order of its keys is the list of the pairs of its map.
pub proof fn lemma_in_order<T>(pairs: Seq<(Seq<char>, T)>)
    requires
        pairs_ordered(pairs),
    ensures
        in_order(pairs_map(pairs)) == pairs,
{
    let m = pairs_map(pairs);
    let chosen = in_order(m);
    assert(pairs_ordered(pairs) && pairs_map(pairs) == m);
    law_order_is_unique(chosen, pairs);
}

/// The pairs of keys and the contents of the values.
pub open spec fn entry_pairs<V: View>(entries: Seq<(String, V)>) -> Seq<(Seq<char>, V::V)> {
    Seq::new(entries.len(), |i: int| (entries[i].0@, entries[i].1@))
}

/// The contents of the values of a map.
pub open spec fn contents<V: View>(m: Map<Seq<char>, V>) -> Map<Seq<char>, V::V> {
    Map::new(|k: Seq<char>| m.contains_key(k), |k: Seq<char>| m[k]@)
}

/// The entries of a map, with the contents of their values, are the pairs of its contents in
/// order.
pub proof fn lemma_entries_in_order<V: View>(entries: Seq<(String, V)>)
    requires
        keys_ordered(entries),
    ensures
        pairs_ordered(entry_pairs(entries)),
        pairs_map(entry_pairs(entries)) == contents(entries_map(entries)),
        in_order(contents(entries_map(entries))) == entry_pairs(entries),
{
    let pairs = entry_pairs(entries);
    assert forall|i: int, j: int| 0 <= i < j < pairs.len() implies text_less(
        (#[trigger] pairs[i]).0,
        (#[trigger] pairs[j]).0,
    ) by {
        assert(text_less(entries[i].0@, entries[j].0@));
    }
    assert forall|k: Seq<char>| #[trigger] pair_value(pairs, k) == match lookup(entries, k) {
        Some(v) => Some(v@),
        None => None,
    } by {
        lemma_pair_of_entry(entries, k);
    }
    assert(pairs_map(pairs) =~= contents(entries_map(entries)));
    lemma_in_order(pairs);
}

proof fn lemma_pair_of_entry<V: View>(entries: Seq<(String, V)>, k: Seq<char>)
    ensures
        pair_value(entry_pairs(entries), k) == match lookup(entries, k) {
            Some(v) => Some(v@),
            None => None,
        },
    decreases entries.len(),
{
    if entries.len() > 0 {
        assert(entry_pairs(entries).drop_last() =~= entry_pairs(entries.drop_last()));
        lemma_pair_of_entry(entries.drop_last(), k);
    }
}

/// A pair with a new key has its place among ordered ones.
proof fn lemma_insert_ordered<T>(pairs: Seq<(Seq<char>, T)>, k: Seq<char>, v: T) -> (r: Seq<
    (Seq<char>, T),
>)
    requires
        pairs_ordered(pairs),
        forall|i: int| 0 <= i < pairs.len() ==> (#[trigger] pairs[i]).0 != k,
    ensures
        pairs_ordered(r),
        pairs_map(r) == pairs_map(pairs).insert(k, v),
        forall|i: int|
            0 <= i < r.len() ==> (#[trigger] r[i]).0 == k || exists|j: int|
                0 <= j < pairs.len() && (#[trigger] pairs[j]).0 == r[i].0,
    decreases pairs.len(),
{
    if pairs.len() == 0 || text_less(pairs.last().0, k) {
        let r = pairs.push((k, v));
        lemma_pairs_push(pairs, k, v);
        assert forall|i: int, j: int| 0 <= i < j < r.len() implies text_less(
            (#[trigger] r[i]).0,
            (#[trigger] r[j]).0,
        ) by {
            if j == pairs.len() {
                assert(r[i] == pairs[i]);
                if i < pairs.len() - 1 {
                    assert(text_less(pairs[i].0, pairs[pairs.len() - 1].0));
                    law_text_order(pairs[i].0, pairs.last().0, k);
                }
            } else {
                assert(text_less(pairs[i].0, pairs[j].0));
            }
        }
        assert forall|i: int| 0 <= i < r.len() implies (#[trigger] r[i]).0 == k || exists|j: int|
            0 <= j < pairs.len() && (#[trigger] pairs[j]).0 == r[i].0 by {
            if i < pairs.len() {
                assert(pairs[i].0 == r[i].0);
            }
        }
        r
    } else {
        let last = pairs.last();
        let front = pairs.drop_last();
        lemma_ordered_front(pairs);
        assert forall|i: int| 0 <= i < front.len() implies (#[trigger] front[i]).0 != k by {
            assert(pairs[i].0 != k);
        }
        let inner = lemma_insert_ordered(front, k, v);
        let r = inner.push(last);
        lemma_pairs_push(inner, last.0, last.1);
        assert(last.0 != k) by {
            assert(pairs[pairs.len() - 1].0 != k);
        }
        law_text_order(k, last.0, k);
        assert forall|i: int, j: int| 0 <= i < j < r.len() implies text_less(
            (#[trigger] r[i]).0,
            (#[trigger] r[j]).0,
        ) by {
            if j == inner.len() {
                assert(r[i] == inner[i]);
                if inner[i].0 != k {
                    let n = choose|n: int|
                        0 <= n < front.len() && (#[trigger] front[n]).0 == inner[i].0;
                    assert(text_less(pairs[n].0, pairs[pairs.len() - 1].0));
                }
            } else {
                assert(text_less(inner[i].0, inner[j].0));
            }
        }
        assert forall|i: int| 0 <= i < r.len() implies (#[trigger] r[i]).0 == k || exists|j: int|
            0 <= j < pairs.len() && (#[trigger] pairs[j]).0 == r[i].0 by {
            if i == inner.len() {
                assert(pairs[pairs.len() - 1].0 == r[i].0);
            } else if inner[i].0 != k {
                let n = choose|n: int|
                    0 <= n < front.len() && (#[trigger] front[n]).0 == inner[i].0;
                assert(pairs[n].0 == r[i].0);
            }
        }
        assert(pairs_map(r) =~= pairs_map(pairs).insert(k, v)) by {
            assert(pairs_map(pairs) =~= pairs_map(front).insert(last.0, last.1)) by {
                lemma_pairs_push(front, last.0, last.1);
                assert(front.push((last.0, last.1)) =~= pairs);
            }
        }
        r
    }
}

/// A map with the keys of a list of pairs has an order.
proof fn lemma_order_exists<S, T>(list: Seq<(Seq<char>, S)>, m: Map<Seq<char>, T>) -> (r: Seq<
    (Seq<char>, T),
>)
    requires
        forall|k: Seq<char>| #[trigger] m.contains_key(k) <==> pairs_map(list).contains_key(k),
    ensures
        pairs_ordered(r),
        pairs_map(r) == m,
    decreases list.len(),
{
    if list.len() == 0 {
        let r = Seq::<(Seq<char>, T)>::empty();
        assert(pairs_map(r) =~= m) by {
            assert forall|k: Seq<char>| !m.contains_key(k) by {
                assert(!pairs_map(list).contains_key(k));
            }
        }
        r
    } else {
        let front = list.drop_last();
        let k = list.last().0;
        assert(front.push((k, list.last().1)) =~= list);
        lemma_pairs_push(front, k, list.last().1);
        if pairs_map(front).contains_key(k) {
            assert(pairs_map(front).dom() =~= pairs_map(list).dom());
            assert forall|x: Seq<char>| #[trigger] m.contains_key(x) <==> pairs_map(
                front,
            ).contains_key(x) by {
                assert(m.contains_key(x) <==> pairs_map(list).contains_key(x));
            }
            lemma_order_exists(front, m)
        } else {
            let rest = m.remove(k);
            assert forall|x: Seq<char>| #[trigger] rest.contains_key(x) <==> pairs_map(
                front,
            ).contains_key(x) by {
                assert(m.contains_key(x) <==> pairs_map(list).contains_key(x));
            }
            let inner = lemma_order_exists(front, rest);
            assert forall|i: int| 0 <= i < inner.len() implies (#[trigger] inner[i]).0 != k by {
                lemma_pair_value(inner, k);
                assert(!pairs_map(inner).contains_key(k));
            }
            let r = lemma_insert_ordered(inner, k, m[k]);
            assert(m.contains_key(k)) by {
                assert(pairs_map(list).contains_key(k));
            }
            assert(rest.insert(k, m[k]) =~= m);
            r
        }
    }
}

/// The pairs of a map with the keys of a list of pairs, in order: each key has its pair.
pub proof fn lemma_in_order_of_list<S, T>(list: Seq<(Seq<char>, S)>, m: Map<Seq<char>, T>)
    requires
        forall|k: Seq<char>| #[trigger] m.contains_key(k) <==> pairs_map(list).contains_key(k),
    ensures
        pairs_ordered(in_order(m)),
        pairs_map(in_order(m)) == m,
        forall|k: Seq<char>| #[trigger]
            m.contains_key(k) ==> exists|i: int|
                0 <= i < in_order(m).len() && #[trigger] in_order(m)[i] == (k, m[k]),
{
    let r = lemma_order_exists(list, m);
    lemma_in_order(r);
    assert(in_order(m) == r);
    assert forall|k: Seq<char>| #[trigger] m.contains_key(k) implies exists|i: int|
        0 <= i < in_order(m).len() && #[trigger] in_order(m)[i] == (k, m[k]) by {
        assert(pairs_map(r).contains_key(k));
        lemma_pair_is_there(r, k);
    }
}

proof fn lemma_pair_is_there<T>(pairs: Seq<(Seq<char>, T)>, key: Seq<char>)
    requires
        pair_value(pairs, key) is Some,
    ensures
        exists|i: int|
            0 <= i < pairs.len() && #[trigger] pairs[i] == (key, pair_value(pairs, key)->Some_0),
    decreases pairs.len(),
{
    if pairs.last().0 == key {
        assert(pairs[pairs.len() - 1] == (key, pairs.last().1));
    } else {
        let front = pairs.drop_last();
        lemma_pair_is_there(front, key);
        let i = choose|i: int|
            0 <= i < front.len() && #[trigger] front[i] == (
                key,
                pair_value(front, key)->Some_0,
            );
        assert(pairs[i] == (key, pair_value(pairs, key)->Some_0));
    }
}

proof fn lemma_bytes_prefix(p: Seq<u8>, a: Seq<u8>, b: Seq<u8>)
    ensures
        bytes_less(p + a, p + b) == bytes_less(a, b),
    decreases p.len(),
{
    if p.len() == 0 {
        assert(p + a =~= a && p + b =~= b);
    } else {
        assert((p + a).drop_first() =~= p.drop_first() + a);
        assert((p + b).drop_first() =~= p.drop_first() + b);
        assert((p + a)[0] == p[0] && (p + b)[0] == p[0]);
        lemma_bytes_prefix(p.drop_first(), a, b);
    }
}

proof fn lemma_encode_joined(p: Seq<char>, a: Seq<char>)
    ensures
        encode_utf8(p + a) == encode_utf8(p) + encode_utf8(a),
    decreases p.len(),
{
    if p.len() == 0 {
        assert(p + a =~= a);
        assert(encode_utf8(p) + encode_utf8(a) =~= encode_utf8(a));
    } else {
        assert((p + a).drop_first() =~= p.drop_first() + a);
        lemma_encode_joined(p.drop_first(), a);
        assert(encode_utf8(p + a) =~= encode_utf8(p) + encode_utf8(a));
    }
}

proof fn lemma_least_char(c: char)
    ensures
        '\0' <= c,
{
}

/// Of two texts that begin in the same way, the one that goes on with the smaller character of ASCII
/// comes first.
pub proof fn lemma_order_behind_prefix(p: Seq<char>, a: Seq<char>, b: Seq<char>)
    requires
        a.len() > 0,
        b.len() > 0,
        a[0] < b[0],
        b[0] <= '\u{7f}',
    ensures
        text_less(p + a, p + b),
{
    lemma_encode_joined(p, a);
    lemma_encode_joined(p, b);
    lemma_bytes_prefix(encode_utf8(p), encode_utf8(a), encode_utf8(b));
    lemma_encode_joined(seq![a[0]], a.drop_first());
    lemma_encode_joined(seq![b[0]], b.drop_first());
    assert(seq![a[0]] + a.drop_first() =~= a);
    assert(seq![b[0]] + b.drop_first() =~= b);
    let x = seq![a[0]];
    let y = seq![b[0]];
    lemma_least_char(a[0]);
    lemma_least_char(b[0]);
    assert forall|i: int| 0 <= i < x.len() implies '\0' <= #[trigger] x[i] <= '\u{7f}' by {
    }
    assert forall|i: int| 0 <= i < y.len() implies '\0' <= #[trigger] y[i] <= '\u{7f}' by {
    }
    vstd::utf8::is_ascii_chars_encode_utf8(seq![a[0]]);
    vstd::utf8::is_ascii_chars_encode_utf8(seq![b[0]]);
    assert(seq![a[0]][0] as u8 == encode_utf8(seq![a[0]])[0]);
    assert(seq![b[0]][0] as u8 == encode_utf8(seq![b[0]])[0]);
}

} // verus!
