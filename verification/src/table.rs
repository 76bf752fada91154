//! Sets and maps of texts, kept as sorted lists.

use vstd::prelude::*;

use crate::text;

verus! {

/// The texts do not descend.
pub open spec fn ascending(s: Seq<Seq<char>>) -> bool {
    forall|i: int, j: int|
        0 <= i < j < s.len() ==> text::text_le(#[trigger] s[i], #[trigger] s[j])
}

/// The texts ascend, so none occurs twice.
pub open spec fn strictly_ascending(s: Seq<Seq<char>>) -> bool {
    forall|i: int, j: int|
        0 <= i < j < s.len() ==> text::text_lt(#[trigger] s[i], #[trigger] s[j])
}

/// Where `key` is, or belongs, in a list that does not descend: the number of texts before it.
pub fn position(list: &Vec<String>, key: &str) -> (at: usize)
    requires
        ascending(text::texts(list@)),
    ensures
        at <= list.len(),
        forall|j: int| 0 <= j < at ==> text::text_lt(#[trigger] list@[j]@, key@),
        forall|j: int| at <= j < list.len() ==> text::text_le(key@, #[trigger] list@[j]@),
{
    let mut low: usize = 0;
    let mut high: usize = list.len();
    while low < high
        invariant
            low <= high <= list.len(),
            ascending(text::texts(list@)),
            forall|j: int| 0 <= j < low ==> text::text_lt(#[trigger] list@[j]@, key@),
            forall|j: int| high <= j < list.len() ==> text::text_le(key@, #[trigger] list@[j]@),
        decreases high - low,
    {
        let mid: usize = low + (high - low) / 2;
        if text::less(list[mid].as_str(), key) {
            proof {
                assert forall|j: int| 0 <= j < mid + 1 implies text::text_lt(
                    #[trigger] list@[j]@,
                    key@,
                ) by {
                    if j < mid {
                        assert(text::text_le(text::texts(list@)[j], text::texts(list@)[mid as int]));
                        if list@[j]@ != list@[mid as int]@ {
                            text::lemma_text_lt_transitive(list@[j]@, list@[mid as int]@, key@);
                        }
                    }
                }
            }
            low = mid + 1;
        } else {
            proof {
                text::lemma_text_lt_total(list@[mid as int]@, key@);
                assert forall|j: int| mid <= j < list.len() implies text::text_le(
                    key@,
                    #[trigger] list@[j]@,
                ) by {
                    if j > mid {
                        assert(text::text_le(text::texts(list@)[mid as int], text::texts(list@)[j]));
                        if key@ != list@[mid as int]@ && list@[j]@ != list@[mid as int]@ {
                            text::lemma_text_lt_transitive(key@, list@[mid as int]@, list@[j]@);
                        }
                    }
                }
            }
            high = mid;
        }
    }
    low
}

/// Whether `key` is in a list that does not descend.
pub fn listed(list: &Vec<String>, key: &str) -> (r: bool)
    requires
        ascending(text::texts(list@)),
    ensures
        r == text::texts(list@).contains(key@),
{
    let at = position(list, key);
    let r = at < list.len() && text::same(list[at].as_str(), key);
    proof {
        let s = text::texts(list@);
        if r {
            assert(s[at as int] == key@);
        } else if s.contains(key@) {
            let j = choose|j: int| 0 <= j < s.len() && s[j] == key@;
            assert(list@[j]@ == key@);
            text::lemma_text_lt_total(key@, key@);
            assert(j >= at);
            assert(text::text_le(key@, list@[at as int]@));
            assert(at != j);
            assert(text::text_le(s[at as int], s[j]));
            text::lemma_text_lt_total(list@[at as int]@, key@);
        }
    }
    r
}

/// A strictly ascending list is ascending.
pub proof fn lemma_strict(s: Seq<Seq<char>>)
    requires
        strictly_ascending(s),
    ensures
        ascending(s),
        s.no_duplicates(),
{
    assert forall|i: int, j: int| 0 <= i < s.len() && 0 <= j < s.len() && i != j implies s[i]
        != s[j] by {
        if i < j {
            text::lemma_text_lt_total(s[i], s[j]);
        } else {
            text::lemma_text_lt_total(s[j], s[i]);
        }
    }
}

/// Putting a missing text where it belongs keeps a list strictly ascending.
proof fn lemma_insert(s: Seq<Seq<char>>, key: Seq<char>, at: int)
    requires
        strictly_ascending(s),
        0 <= at <= s.len(),
        forall|j: int| 0 <= j < at ==> text::text_lt(#[trigger] s[j], key),
        forall|j: int| at <= j < s.len() ==> text::text_lt(key, #[trigger] s[j]),
    ensures
        strictly_ascending(s.insert(at, key)),
        forall|k: Seq<char>|
            #[trigger] s.insert(at, key).contains(k) <==> s.contains(k) || k == key,
{
    let t = s.insert(at, key);
    assert forall|i: int, j: int| 0 <= i < j < t.len() implies text::text_lt(
        #[trigger] t[i],
        #[trigger] t[j],
    ) by {
        let a = if i < at {
            i
        } else {
            i - 1
        };
        let b = if j < at {
            j
        } else {
            j - 1
        };
        if i != at && j != at {
            assert(t[i] == s[a] && t[j] == s[b]);
        } else if i == at {
            assert(t[j] == s[b]);
        } else {
            assert(t[i] == s[a]);
        }
    }
    assert forall|k: Seq<char>| #[trigger] t.contains(k) <==> s.contains(k) || k == key by {
        if s.contains(k) {
            let j = choose|j: int| 0 <= j < s.len() && s[j] == k;
            assert(t[if j < at {
                j
            } else {
                j + 1
            }] == k);
        }
        if k == key {
            assert(t[at] == k);
        }
        if t.contains(k) && k != key {
            let j = choose|j: int| 0 <= j < t.len() && t[j] == k;
            assert(s[if j < at {
                j
            } else {
                j - 1
            }] == k);
        }
    }
}

/// A set of texts, in ascending order.
#[derive(Debug)]
pub struct TextSet {
    items: Vec<String>,
}

impl View for TextSet {
    type V = Seq<Seq<char>>;

    /// The texts of the set, in ascending order.
    closed spec fn view(&self) -> Seq<Seq<char>> {
        text::texts(self.items@)
    }
}

impl TextSet {
    /// No text occurs twice, and they are in order.
    #[verifier::type_invariant]
    pub open spec fn wf(self) -> bool {
        strictly_ascending(self@)
    }

    /// The empty set.
    pub fn new() -> (r: Self)
        ensures
            r@ == Seq::<Seq<char>>::empty(),
            r.wf(),
    {
        let r = TextSet { items: Vec::new() };
        assert(r@ =~= Seq::<Seq<char>>::empty());
        r
    }

    /// Whether `key` is in the set.
    pub fn contains(&self, key: &str) -> (r: bool)
        ensures
            r == self@.contains(key@),
    {
        proof {
            use_type_invariant(self);
            lemma_strict(self@);
        }
        listed(&self.items, key)
    }

    /// Puts `key` into the set.
    pub fn insert(&mut self, key: String)
        ensures
            forall|k: Seq<char>|
                #[trigger] final(self)@.contains(k) <==> old(self)@.contains(k) || k == key@,
            final(self).wf(),
    {
        proof {
            use_type_invariant(&*self);
            lemma_strict(self@);
        }
        let at = position(&self.items, key.as_str());
        if at < self.items.len() && text::same(self.items[at].as_str(), key.as_str()) {
            assert(self@[at as int] == key@);
            return ;
        }
        let mut items: Vec<String> = Vec::new();
        std::mem::swap(&mut items, &mut self.items);
        let ghost was = text::texts(items@);
        items.insert(at, key);
        proof {
            assert forall|j: int| at <= j < was.len() implies text::text_lt(
                key@,
                #[trigger] was[j],
            ) by {
                if was[j] == key@ {
                    if j > at {
                        assert(text::text_lt(was[at as int], was[j]));
                        text::lemma_text_lt_total(was[at as int], key@);
                    }
                }
            }
            assert forall|j: int| 0 <= j < at implies text::text_lt(#[trigger] was[j], key@) by {}
            lemma_insert(was, key@, at as int);
            assert(text::texts(items@) =~= was.insert(at as int, key@));
        }
        self.items = items;
    }

    /// How many texts the set holds.
    pub fn len(&self) -> (n: usize)
        ensures
            n == self@.len(),
    {
        self.items.len()
    }

    /// Whether the set holds nothing.
    pub fn is_empty(&self) -> (r: bool)
        ensures
            r == (self@.len() == 0),
    {
        self.items.len() == 0
    }

    /// The text at `i`, counted in ascending order.
    pub fn get(&self, i: usize) -> (r: &str)
        requires
            i < self@.len(),
        ensures
            r@ == self@[i as int],
    {
        self.items[i].as_str()
    }

    /// The texts, in ascending order.
    pub fn iter(&self) -> (r: &Vec<String>)
        ensures
            text::texts(r@) == self@,
    {
        &self.items
    }
}

/// Two strictly ascending lists with the same members are the same list.
pub proof fn lemma_same_members(a: Seq<Seq<char>>, b: Seq<Seq<char>>)
    requires
        strictly_ascending(a),
        strictly_ascending(b),
        forall|k: Seq<char>| #[trigger] a.contains(k) <==> b.contains(k),
    ensures
        a == b,
    decreases a.len(),
{
    if a.len() == 0 {
        if b.len() > 0 {
            assert(b.contains(b[0]));
            assert(a.contains(b[0]));
        }
        assert(a =~= b);
    } else {
        assert(a.contains(a[0]));
        assert(b.contains(a[0]));
        let i = choose|i: int| 0 <= i < b.len() && b[i] == a[0];
        assert(b.contains(b[0]));
        assert(a.contains(b[0]));
        let j = choose|j: int| 0 <= j < a.len() && a[j] == b[0];
        if i > 0 && j > 0 {
            assert(text::text_lt(b[0], b[i]));
            assert(text::text_lt(a[0], a[j]));
            text::lemma_text_lt_total(a[0], b[0]);
        }
        assert(a[0] == b[0]);
        let x = a.skip(1);
        let y = b.skip(1);
        assert forall|p: int, q: int| 0 <= p < q < x.len() implies text::text_lt(
            #[trigger] x[p],
            #[trigger] x[q],
        ) by {
            assert(x[p] == a[p + 1] && x[q] == a[q + 1]);
        }
        assert forall|p: int, q: int| 0 <= p < q < y.len() implies text::text_lt(
            #[trigger] y[p],
            #[trigger] y[q],
        ) by {
            assert(y[p] == b[p + 1] && y[q] == b[q + 1]);
        }
        assert forall|k: Seq<char>| #[trigger] x.contains(k) <==> y.contains(k) by {
            if x.contains(k) {
                let p = choose|p: int| 0 <= p < x.len() && x[p] == k;
                assert(a[p + 1] == k);
                assert(a.contains(k));
                let q = choose|q: int| 0 <= q < b.len() && b[q] == k;
                assert(text::text_lt(a[0], a[p + 1]));
                text::lemma_text_lt_total(a[0], k);
                assert(q != 0);
                assert(y[q - 1] == k);
            }
            if y.contains(k) {
                let p = choose|p: int| 0 <= p < y.len() && y[p] == k;
                assert(b[p + 1] == k);
                assert(b.contains(k));
                assert(a.contains(k));
                let q = choose|q: int| 0 <= q < a.len() && a[q] == k;
                assert(text::text_lt(b[0], b[p + 1]));
                text::lemma_text_lt_total(b[0], k);
                assert(q != 0);
                assert(x[q - 1] == k);
            }
        }
        lemma_same_members(x, y);
        assert(a =~= seq![a[0]] + x);
        assert(b =~= seq![b[0]] + y);
    }
}

/// A map from texts, in ascending order of the keys.
#[derive(Debug)]
pub struct Table<V> {
    keys: Vec<String>,
    values: Vec<V>,
}

impl<V> Table<V> {
    /// The keys, in ascending order.
    pub closed spec fn spec_keys(self) -> Seq<Seq<char>> {
        text::texts(self.keys@)
    }

    /// The values, in the order of the keys.
    pub closed spec fn spec_values(self) -> Seq<V> {
        self.values@
    }

    /// Each key has one value.
    #[verifier::type_invariant]
    pub open spec fn wf(self) -> bool {
        &&& strictly_ascending(self.spec_keys())
        &&& self.spec_keys().len() == self.spec_values().len()
    }

    /// What `key` is mapped to.
    pub open spec fn spec_get(self, key: Seq<char>) -> Option<V> {
        if self.spec_keys().contains(key) {
            Some(self.spec_values()[self.spec_keys().index_of(key)])
        } else {
            None
        }
    }

    /// The empty map.
    pub fn new() -> (r: Self)
        ensures
            forall|k: Seq<char>| #[trigger] r.spec_get(k) is None,
            r.wf(),
    {
        let r = Table { keys: Vec::new(), values: Vec::new() };
        assert(r.spec_keys() =~= Seq::<Seq<char>>::empty());
        r
    }

    /// The keys, in ascending order.
    pub fn keys(&self) -> (r: &Vec<String>)
        ensures
            text::texts(r@) == self.spec_keys(),
    {
        &self.keys
    }

    /// What `key` is mapped to.
    pub fn get(&self, key: &str) -> (r: Option<&V>)
        ensures
            match r {
                Some(v) => self.spec_get(key@) == Some(*v),
                None => self.spec_get(key@) is None,
            },
    {
        proof {
            use_type_invariant(self);
            lemma_strict(self.spec_keys());
        }
        let at = position(&self.keys, key);
        if at < self.keys.len() && text::same(self.keys[at].as_str(), key) {
            proof {
                let s = self.spec_keys();
                assert(s[at as int] == key@);
                assert(s.index_of(key@) == at);
            }
            Some(&self.values[at])
        } else {
            proof {
                let s = self.spec_keys();
                if s.contains(key@) {
                    let j = choose|j: int| 0 <= j < s.len() && s[j] == key@;
                    assert(self.keys@[j]@ == key@);
                    text::lemma_text_lt_total(key@, key@);
                    assert(j > at);
                    assert(text::text_le(key@, self.keys@[at as int]@));
                    assert(text::text_lt(s[at as int], s[j]));
                    text::lemma_text_lt_total(s[at as int], key@);
                }
            }
            None
        }
    }

    /// Maps `key` to `value`, in place of what it was mapped to.
    pub fn insert(&mut self, key: String, value: V)
        ensures
            forall|k: Seq<char>|
                #[trigger] final(self).spec_get(k) == if k == key@ {
                    Some(value)
                } else {
                    old(self).spec_get(k)
                },
            final(self).wf(),
    {
        proof {
            use_type_invariant(&*self);
            lemma_strict(self.spec_keys());
        }
        let ghost keys0 = self.spec_keys();
        let ghost values0 = self.spec_values();
        let at = position(&self.keys, key.as_str());
        let present = at < self.keys.len() && text::same(self.keys[at].as_str(), key.as_str());
        let mut next: Table<V> = Table { keys: Vec::new(), values: Vec::new() };
        std::mem::swap(&mut next, self);
        let Table { keys, values } = next;
        let mut keys = keys;
        let mut values = values;
        if present {
            values.set(at, value);
            proof {
                assert(keys0[at as int] == key@);
                assert(values@ =~= values0.update(at as int, value));
            }
        } else {
            keys.insert(at, key);
            values.insert(at, value);
            proof {
                assert forall|j: int| at <= j < keys0.len() implies text::text_lt(
                    key@,
                    #[trigger] keys0[j],
                ) by {
                    if keys0[j] == key@ {
                        if j > at {
                            assert(text::text_lt(keys0[at as int], keys0[j]));
                            text::lemma_text_lt_total(keys0[at as int], key@);
                        }
                    }
                }
                lemma_insert(keys0, key@, at as int);
                assert(text::texts(keys@) =~= keys0.insert(at as int, key@));
                assert(values@ =~= values0.insert(at as int, value));
            }
        }
        *self = Table { keys, values };
        proof {
            let keys1 = self.spec_keys();
            let values1 = self.spec_values();
            lemma_strict(keys1);
            assert forall|k: Seq<char>| #[trigger] self.spec_get(k) == if k == key@ {
                Some(value)
            } else {
                old(self).spec_get(k)
            } by {
                if present {
                    assert(keys1 =~= keys0);
                    assert(keys0.index_of(key@) == at);
                    if keys0.contains(k) && k != key@ {
                        assert(keys0.index_of(k) != at);
                    }
                } else {
                    assert(keys1[at as int] == key@);
                    if k == key@ {
                        assert(keys1.index_of(k) == at);
                    } else if keys0.contains(k) {
                        let j = keys0.index_of(k);
                        let i = if j < at {
                            j
                        } else {
                            j + 1
                        };
                        assert(keys1[i] == k);
                        assert(keys1.index_of(k) == i);
                    }
                }
            }
        }
    }
}

} // verus!
