//! Strings in their standard order, and maps from strings kept in that order.

use vstd::prelude::*;
use vstd::utf8::*;

verus! {

/// Lexicographic order of byte sequences.
pub open spec fn bytes_lt(a: Seq<u8>, b: Seq<u8>) -> bool
    decreases a.len(),
{
    if b.len() == 0 {
        false
    } else if a.len() == 0 {
        true
    } else if a[0] == b[0] {
        bytes_lt(a.drop_first(), b.drop_first())
    } else {
        a[0] < b[0]
    }
}

/// The standard order of strings: lexicographic by the bytes of their UTF-8
/// encoding.
pub open spec fn text_lt(a: Seq<char>, b: Seq<char>) -> bool {
    bytes_lt(encode_utf8(a), encode_utf8(b))
}

proof fn lemma_bytes_irreflexive(a: Seq<u8>)
    ensures
        !bytes_lt(a, a),
    decreases a.len(),
{
    if a.len() > 0 {
        lemma_bytes_irreflexive(a.drop_first());
    }
}

proof fn lemma_bytes_transitive(a: Seq<u8>, b: Seq<u8>, c: Seq<u8>)
    requires
        bytes_lt(a, b),
        bytes_lt(b, c),
    ensures
        bytes_lt(a, c),
    decreases a.len(),
{
    if a.len() > 0 && a[0] == b[0] && b[0] == c[0] {
        lemma_bytes_transitive(a.drop_first(), b.drop_first(), c.drop_first());
    }
}

proof fn lemma_bytes_total(a: Seq<u8>, b: Seq<u8>)
    ensures
        a == b || bytes_lt(a, b) || bytes_lt(b, a),
    decreases a.len(),
{
    if a.len() > 0 && b.len() > 0 && a[0] == b[0] {
        lemma_bytes_total(a.drop_first(), b.drop_first());
        if a.drop_first() == b.drop_first() {
            assert(a =~= seq![a[0]] + a.drop_first());
            assert(b =~= seq![b[0]] + b.drop_first());
        }
    } else if a.len() == 0 && b.len() == 0 {
        assert(a =~= b);
    }
}

/// No string is before itself.
pub proof fn lemma_text_irreflexive(a: Seq<char>)
    ensures
        !text_lt(a, a),
{
    lemma_bytes_irreflexive(encode_utf8(a));
}

/// The order of strings is transitive.
pub proof fn lemma_text_transitive(a: Seq<char>, b: Seq<char>, c: Seq<char>)
    requires
        text_lt(a, b),
        text_lt(b, c),
    ensures
        text_lt(a, c),
{
    lemma_bytes_transitive(encode_utf8(a), encode_utf8(b), encode_utf8(c));
}

/// Of two different strings one is before the other.
pub proof fn lemma_text_total(a: Seq<char>, b: Seq<char>)
    ensures
        a == b || text_lt(a, b) || text_lt(b, a),
{
    lemma_bytes_total(encode_utf8(a), encode_utf8(b));
    encode_utf8_decode_utf8(a);
    encode_utf8_decode_utf8(b);
}

/// The order of byte sequences goes by the first difference, and a sequence is
/// before what continues it.
pub proof fn law_bytes_order(start: Seq<u8>, x: u8, a: Seq<u8>, y: u8, b: Seq<u8>)
    ensures
        bytes_lt(start.push(x) + a, start.push(y) + b) <==> x < y || (x == y && bytes_lt(a, b)),
        bytes_lt(start, start.push(y) + b),
        !bytes_lt(start.push(x) + a, start),
    decreases start.len(),
{
    let p = start.push(x) + a;
    let q = start.push(y) + b;
    if start.len() == 0 {
        assert(p[0] == x && q[0] == y);
        assert(p.drop_first() =~= a);
        assert(q.drop_first() =~= b);
    } else {
        let rest = start.drop_first();
        law_bytes_order(rest, x, a, y, b);
        assert(p.drop_first() =~= rest.push(x) + a);
        assert(q.drop_first() =~= rest.push(y) + b);
    }
}

/// Strings are ordered by the bytes of their UTF-8 encoding.
pub proof fn law_text_order(a: Seq<char>, b: Seq<char>)
    ensures
        text_lt(a, b) <==> bytes_lt(encode_utf8(a), encode_utf8(b)),
{
}

/// Ascending strings are each before every later one.
pub proof fn law_ascending(s: Seq<Seq<char>>)
    ensures
        ascending(s) <==> forall|i: int, j: int|
            0 <= i < j < s.len() ==> text_lt(#[trigger] s[i], #[trigger] s[j]),
{
}

/// Whether `a` is before `b`.
pub fn text_less(a: &str, b: &str) -> (r: bool)
    ensures
        r == text_lt(a@, b@),
{
    let x = a.as_bytes();
    let y = b.as_bytes();
    let mut i: usize = 0;
    assert(x@.skip(0) =~= x@);
    assert(y@.skip(0) =~= y@);
    while i < x.len() && i < y.len()
        invariant
            i <= x@.len(),
            i <= y@.len(),
            x@ == encode_utf8(a@),
            y@ == encode_utf8(b@),
            bytes_lt(x@.skip(i as int), y@.skip(i as int)) == text_lt(a@, b@),
        decreases x@.len() - i,
    {
        assert(x@.skip(i as int).drop_first() =~= x@.skip(i + 1));
        assert(y@.skip(i as int).drop_first() =~= y@.skip(i + 1));
        if x[i] != y[i] {
            return x[i] < y[i];
        }
        i = i + 1;
    }
    i < y.len()
}

/// Strictly ascending, hence without repetition.
pub open spec fn ascending(s: Seq<Seq<char>>) -> bool {
    forall|i: int, j: int| 0 <= i < j < s.len() ==> text_lt(#[trigger] s[i], #[trigger] s[j])
}

/// An ascending sequence repeats nothing.
pub proof fn lemma_ascending_distinct(s: Seq<Seq<char>>)
    requires
        ascending(s),
    ensures
        s.no_duplicates(),
{
    assert forall|i: int, j: int| 0 <= i < s.len() && 0 <= j < s.len() && i != j implies s[i]
        != s[j] by {
        lemma_text_irreflexive(s[i]);
        if i < j {
            assert(text_lt(s[i], s[j]));
        } else {
            assert(text_lt(s[j], s[i]));
        }
    }
}

/// A map from strings, held as entries in ascending order of their keys.
pub struct StringMap<V> {
    entries: Vec<(String, V)>,
}

/// The keys of a sequence of entries.
spec fn entry_keys<V>(entries: Seq<(String, V)>) -> Seq<Seq<char>> {
    entries.map_values(|e: (String, V)| e.0@)
}

/// The map that a sequence of entries stands for.
spec fn entry_map<V: View>(entries: Seq<(String, V)>) -> Map<Seq<char>, V::V> {
    Map::new(
        |k: Seq<char>| entry_keys(entries).contains(k),
        |k: Seq<char>| entries[entry_keys(entries).index_of(k)].1@,
    )
}

impl<V> StringMap<V> {
    #[verifier::type_invariant]
    spec fn well_formed(self) -> bool {
        ascending(entry_keys(self.entries@))
    }

    /// The keys, in ascending order.
    pub closed spec fn keys(&self) -> Seq<Seq<char>> {
        entry_keys(self.entries@)
    }
}

impl<V: View> View for StringMap<V> {
    type V = Map<Seq<char>, V::V>;

    closed spec fn view(&self) -> Map<Seq<char>, V::V> {
        entry_map(self.entries@)
    }
}

proof fn lemma_entry<V: View>(entries: Seq<(String, V)>, i: int)
    requires
        ascending(entry_keys(entries)),
        0 <= i < entries.len(),
    ensures
        entry_map(entries).contains_key(entries[i].0@),
        entry_map(entries)[entries[i].0@] == entries[i].1@,
{
    let keys = entry_keys(entries);
    lemma_ascending_distinct(keys);
    assert(keys[i] == entries[i].0@);
    assert(keys.contains(keys[i]));
    assert(keys.index_of(keys[i]) == i);
}

proof fn lemma_keys_len<V: View>(entries: Seq<(String, V)>)
    requires
        ascending(entry_keys(entries)),
    ensures
        entry_map(entries).dom() =~= entry_keys(entries).to_set(),
        entry_map(entries).dom().finite(),
        entry_map(entries).len() == entries.len(),
{
    let keys = entry_keys(entries);
    lemma_ascending_distinct(keys);
    keys.unique_seq_to_set();
    vstd::seq_lib::seq_to_set_is_finite(keys);
    assert(entry_map(entries).dom() =~= keys.to_set());
}

proof fn lemma_inserted<V: View>(entries: Seq<(String, V)>, at: int, key: String, value: V)
    requires
        ascending(entry_keys(entries)),
        0 <= at <= entries.len(),
        forall|i: int| 0 <= i < at ==> text_lt(#[trigger] entries[i].0@, key@),
        forall|i: int| at <= i < entries.len() ==> text_lt(key@, #[trigger] entries[i].0@),
    ensures
        ascending(entry_keys(entries.insert(at, (key, value)))),
        entry_map(entries.insert(at, (key, value))) == entry_map(entries).insert(key@, value@),
        !entry_map(entries).contains_key(key@),
{
    let old_keys = entry_keys(entries);
    let after = entries.insert(at, (key, value));
    let new_keys = entry_keys(after);
    assert(new_keys =~= old_keys.insert(at, key@));
    assert forall|i: int, j: int| 0 <= i < j < new_keys.len() implies text_lt(
        #[trigger] new_keys[i],
        #[trigger] new_keys[j],
    ) by {
        let oi = if i < at { i } else { i - 1 };
        let oj = if j < at { j } else { j - 1 };
        if i != at && j != at {
            assert(text_lt(old_keys[oi], old_keys[oj]));
        } else if i == at {
            assert(text_lt(key@, entries[oj].0@));
        } else {
            assert(text_lt(entries[oi].0@, key@));
        }
    }
    if old_keys.contains(key@) {
        let i = old_keys.index_of(key@);
        lemma_text_irreflexive(key@);
        assert(entries[i].0@ == key@);
    }
    let m = entry_map(after);
    let e = entry_map(entries).insert(key@, value@);
    lemma_entry(after, at);
    assert forall|k: Seq<char>| #[trigger] m.contains_key(k) == e.contains_key(k) by {
        if m.contains_key(k) {
            let i = new_keys.index_of(k);
            assert(new_keys[i] == k);
            if i != at {
                let o = if i < at { i } else { i - 1 };
                assert(old_keys[o] == k);
            }
        }
        if entry_map(entries).contains_key(k) {
            let o = old_keys.index_of(k);
            let i = if o < at { o } else { o + 1 };
            assert(new_keys[i] == k);
        }
        if k == key@ {
            assert(new_keys[at] == k);
        }
    }
    assert forall|k: Seq<char>| #[trigger] m.contains_key(k) implies m[k] == e[k] by {
        let i = new_keys.index_of(k);
        assert(new_keys[i] == k);
        lemma_entry(after, i);
        if i != at {
            let o = if i < at { i } else { i - 1 };
            assert(old_keys[o] == k);
            lemma_entry(entries, o);
            lemma_ascending_distinct(new_keys);
            assert(new_keys[at] == key@);
        }
    }
    assert(m =~= e);
}

proof fn lemma_removed<V: View>(entries: Seq<(String, V)>, at: int)
    requires
        ascending(entry_keys(entries)),
        0 <= at < entries.len(),
    ensures
        ascending(entry_keys(entries.remove(at))),
        entry_map(entries.remove(at)) == entry_map(entries).remove(entries[at].0@),
{
    let old_keys = entry_keys(entries);
    let after = entries.remove(at);
    let new_keys = entry_keys(after);
    lemma_ascending_distinct(old_keys);
    assert(new_keys =~= old_keys.remove(at));
    assert forall|i: int, j: int| 0 <= i < j < new_keys.len() implies text_lt(
        #[trigger] new_keys[i],
        #[trigger] new_keys[j],
    ) by {
        let oi = if i < at { i } else { i + 1 };
        let oj = if j < at { j } else { j + 1 };
        assert(text_lt(old_keys[oi], old_keys[oj]));
    }
    let m = entry_map(after);
    let e = entry_map(entries).remove(entries[at].0@);
    assert forall|k: Seq<char>| #[trigger] m.contains_key(k) == e.contains_key(k) by {
        if m.contains_key(k) {
            let i = new_keys.index_of(k);
            assert(new_keys[i] == k);
            let o = if i < at { i } else { i + 1 };
            assert(old_keys[o] == k);
            assert(old_keys[at] == entries[at].0@);
        }
        if e.contains_key(k) {
            let o = old_keys.index_of(k);
            assert(old_keys[o] == k);
            let i = if o < at { o } else { o - 1 };
            assert(new_keys[i] == k);
        }
    }
    assert forall|k: Seq<char>| #[trigger] m.contains_key(k) implies m[k] == e[k] by {
        let i = new_keys.index_of(k);
        assert(new_keys[i] == k);
        lemma_entry(after, i);
        let o = if i < at { i } else { i + 1 };
        assert(old_keys[o] == k);
        lemma_entry(entries, o);
    }
    assert(m =~= e);
}

proof fn lemma_replaced<V: View>(entries: Seq<(String, V)>, at: int, key: String, value: V)
    requires
        ascending(entry_keys(entries)),
        0 <= at < entries.len(),
        entries[at].0@ == key@,
    ensures
        ascending(entry_keys(entries.update(at, (key, value)))),
        entry_map(entries.update(at, (key, value))) == entry_map(entries).insert(key@, value@),
{
    let after = entries.update(at, (key, value));
    let keys = entry_keys(entries);
    assert(entry_keys(after) =~= keys);
    lemma_ascending_distinct(keys);
    lemma_entry(after, at);
    lemma_entry(entries, at);
    let m = entry_map(after);
    let e = entry_map(entries).insert(key@, value@);
    assert forall|k: Seq<char>| #[trigger] m.contains_key(k) implies m[k] == e[k] by {
        let i = keys.index_of(k);
        assert(keys[i] == k);
        lemma_entry(after, i);
        lemma_entry(entries, i);
    }
    assert(m =~= e);
}

impl<V: View> StringMap<V> {
    /// The empty map.
    pub fn new() -> (r: Self)
        ensures
            r@ == Map::<Seq<char>, V::V>::empty(),
    {
        let r = StringMap { entries: Vec::new() };
        assert(entry_keys(r.entries@) =~= Seq::empty());
        assert(r@ =~= Map::<Seq<char>, V::V>::empty());
        r
    }

    /// Where `key` stands, or the place to insert it.
    fn find(&self, key: &str) -> (r: (bool, usize))
        ensures
            r.1 <= self.entries@.len(),
            r.0 == self@.contains_key(key@),
            r.0 ==> r.1 < self.entries@.len() && self.entries@[r.1 as int].0@ == key@,
            forall|i: int| 0 <= i < r.1 ==> text_lt(#[trigger] self.entries@[i].0@, key@),
            !r.0 ==> forall|i: int|
                r.1 <= i < self.entries@.len() ==> text_lt(key@, #[trigger] self.entries@[i].0@),
    {
        proof {
            use_type_invariant(self);
        }
        let ghost keys = entry_keys(self.entries@);
        let mut lo: usize = 0;
        let mut hi: usize = self.entries.len();
        while lo < hi
            invariant
                lo <= hi <= self.entries@.len(),
                keys == entry_keys(self.entries@),
                ascending(keys),
                forall|i: int| 0 <= i < lo ==> text_lt(#[trigger] self.entries@[i].0@, key@),
                forall|i: int|
                    hi <= i < self.entries@.len() ==> !text_lt(
                        #[trigger] self.entries@[i].0@,
                        key@,
                    ),
            decreases hi - lo,
        {
            let mid = lo + (hi - lo) / 2;
            if text_less(self.entries[mid].0.as_str(), key) {
                assert forall|i: int| 0 <= i < mid + 1 implies text_lt(
                    #[trigger] self.entries@[i].0@,
                    key@,
                ) by {
                    if i < mid {
                        assert(text_lt(keys[i], keys[mid as int]));
                        lemma_text_transitive(keys[i], keys[mid as int], key@);
                    }
                }
                lo = mid + 1;
            } else {
                assert forall|i: int| mid <= i < self.entries@.len() implies !text_lt(
                    #[trigger] self.entries@[i].0@,
                    key@,
                ) by {
                    if i > mid && text_lt(keys[i], key@) {
                        assert(text_lt(keys[mid as int], keys[i]));
                        lemma_text_transitive(keys[mid as int], keys[i], key@);
                    }
                }
                hi = mid;
            }
        }
        let found = lo < self.entries.len() && crate::text::text_eq(
            self.entries[lo].0.as_str(),
            key,
        );
        proof {
            if found {
                lemma_entry(self.entries@, lo as int);
            } else {
                assert forall|i: int| lo <= i < self.entries@.len() implies text_lt(
                    key@,
                    #[trigger] self.entries@[i].0@,
                ) by {
                    lemma_text_total(key@, keys[lo as int]);
                    if i > lo {
                        assert(text_lt(keys[lo as int], keys[i]));
                        lemma_text_transitive(key@, keys[lo as int], keys[i]);
                    }
                }
                if keys.contains(key@) {
                    let i = keys.index_of(key@);
                    lemma_text_irreflexive(key@);
                    assert(self.entries@[i].0@ == key@);
                }
            }
        }
        (found, lo)
    }

    /// The value at `key`.
    pub fn get(&self, key: &str) -> (r: Option<&V>)
        ensures
            r is Some <==> self@.contains_key(key@),
            r matches Some(v) ==> v@ == self@[key@],
    {
        let (found, at) = self.find(key);
        if found {
            proof {
                use_type_invariant(self);
                lemma_entry(self.entries@, at as int);
            }
            Some(&self.entries[at].1)
        } else {
            None
        }
    }

    /// Puts `value` at `key`, in place of any value there.
    pub fn insert(&mut self, key: String, value: V)
        ensures
            final(self)@ == old(self)@.insert(key@, value@),
    {
        let (found, at) = self.find(key.as_str());
        proof {
            use_type_invariant(&*self);
        }
        let ghost before = self.entries@;
        let mut entries: Vec<(String, V)> = Vec::new();
        assert(entry_keys(entries@) =~= Seq::empty());
        std::mem::swap(&mut entries, &mut self.entries);
        if found {
            proof {
                lemma_replaced(before, at as int, key, value);
            }
            entries[at] = (key, value);
        } else {
            proof {
                lemma_inserted(before, at as int, key, value);
            }
            entries.insert(at, (key, value));
        }
        self.entries = entries;
    }

    /// Removes `key` and returns the value that was there.
    pub fn remove(&mut self, key: &str) -> (r: Option<V>)
        ensures
            final(self)@ == old(self)@.remove(key@),
            r is Some <==> old(self)@.contains_key(key@),
            r matches Some(v) ==> v@ == old(self)@[key@],
    {
        let (found, at) = self.find(key);
        proof {
            use_type_invariant(&*self);
        }
        if found {
            let ghost before = self.entries@;
            let mut entries: Vec<(String, V)> = Vec::new();
            assert(entry_keys(entries@) =~= Seq::empty());
            std::mem::swap(&mut entries, &mut self.entries);
            proof {
                lemma_removed(before, at as int);
                lemma_entry(before, at as int);
            }
            let (_, value) = entries.remove(at);
            self.entries = entries;
            Some(value)
        } else {
            assert(self@.remove(key@) =~= self@);
            None
        }
    }

    /// The number of entries.
    pub fn len(&self) -> (r: usize)
        ensures
            r == self@.len(),
            r == self.keys().len(),
            self@.dom().finite(),
            ascending(self.keys()),
            self.keys().to_set() == self@.dom(),
    {
        proof {
            use_type_invariant(self);
            lemma_keys_len(self.entries@);
        }
        self.entries.len()
    }

    /// The `i`-th entry in ascending order of keys.
    pub fn entry(&self, i: usize) -> (r: (&String, &V))
        requires
            i < self.keys().len(),
        ensures
            r.0@ == self.keys()[i as int],
            self@.contains_key(r.0@),
            r.1@ == self@[r.0@],
            ascending(self.keys()),
            self.keys().to_set() == self@.dom(),
    {
        proof {
            use_type_invariant(self);
            lemma_entry(self.entries@, i as int);
            lemma_keys_len(self.entries@);
        }
        let e = &self.entries[i];
        (&e.0, &e.1)
    }
}

} // verus!
