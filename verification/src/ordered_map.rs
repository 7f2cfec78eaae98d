//! A map from text keys to values that keeps its entries in ascending key
//! order, so that walking it is deterministic.

use vstd::prelude::*;
use crate::text::{ascending, text_before, compare_text, Position, lemma_text_before_total,
    lemma_text_before_transitive, lemma_text_before_irreflexive};

verus! {

/// The views of a sequence of strings.
pub open spec fn texts(keys: Seq<String>) -> Seq<Seq<char>> {
    keys.map_values(|k: String| k@)
}

/// The map that holds `values[i]` under `keys[i]`.
pub open spec fn entries_map<V>(keys: Seq<Seq<char>>, values: Seq<V>) -> Map<Seq<char>, V> {
    Map::new(|k: Seq<char>| keys.contains(k), |k: Seq<char>| values[keys.index_of(k)])
}

/// In an ascending sequence no key occurs twice.
pub proof fn lemma_ascending_distinct(keys: Seq<Seq<char>>)
    requires
        ascending(keys),
    ensures
        forall|i: int, j: int| 0 <= i < keys.len() && 0 <= j < keys.len() && i != j
            ==> #[trigger] keys[i] != #[trigger] keys[j],
{
    assert forall|i: int, j: int| 0 <= i < keys.len() && 0 <= j < keys.len() && i != j
        implies #[trigger] keys[i] != #[trigger] keys[j] by {
        lemma_text_before_total(keys[i], keys[j]);
        if i < j {
            assert(text_before(keys[i], keys[j]));
        } else {
            assert(text_before(keys[j], keys[i]));
        }
    }
}

/// The keys of `dom` in ascending order. A finite set has exactly one such
/// listing.
pub open spec fn sorted_keys(dom: Set<Seq<char>>) -> Seq<Seq<char>> {
    choose|s: Seq<Seq<char>>| lists(s, dom)
}

/// `s` lists the members of `dom`, each once, in ascending order.
pub open spec fn lists(s: Seq<Seq<char>>, dom: Set<Seq<char>>) -> bool {
    &&& ascending(s)
    &&& forall|k: Seq<char>| s.contains(k) <==> dom.contains(k)
}

/// Two ascending sequences with the same members are the same sequence.
pub proof fn lemma_ascending_unique(s: Seq<Seq<char>>, t: Seq<Seq<char>>)
    requires
        ascending(s),
        ascending(t),
        forall|k: Seq<char>| s.contains(k) <==> t.contains(k),
    ensures
        s == t,
    decreases s.len(),
{
    if s.len() == 0 {
        if t.len() > 0 {
            assert(t.contains(t[0]));
        }
        assert(s =~= t);
    } else {
        let a = s.last();
        assert(s.contains(a));
        assert(t.contains(a));
        let b = t.last();
        assert(t.contains(b));
        assert(s.contains(b));
        let ja = t.index_of(a);
        let ib = s.index_of(b);
        lemma_text_before_total(a, b);
        if ja < t.len() - 1 {
            assert(text_before(t[ja], t[t.len() - 1]));
        }
        if ib < s.len() - 1 {
            assert(text_before(s[ib], s[s.len() - 1]));
        }
        assert(a == b);
        let s1 = s.drop_last();
        let t1 = t.drop_last();
        lemma_text_before_irreflexive(a);
        assert forall|k: Seq<char>| s1.contains(k) <==> t1.contains(k) by {
            if s1.contains(k) {
                let i = s1.index_of(k);
                assert(s[i] == k);
                assert(text_before(s[i], s[s.len() - 1]));
                assert(s.contains(k));
                let j = t.index_of(k);
                assert(t1[j] == k);
            }
            if t1.contains(k) {
                let j = t1.index_of(k);
                assert(t[j] == k);
                assert(text_before(t[j], t[t.len() - 1]));
                assert(t.contains(k));
                let i = s.index_of(k);
                assert(s1[i] == k);
            }
        }
        lemma_ascending_unique(s1, t1);
        assert(s =~= s1.push(a));
        assert(t =~= t1.push(b));
    }
}

/// An ascending listing of a set is the set's sorted keys.
pub proof fn lemma_sorted_keys(s: Seq<Seq<char>>, dom: Set<Seq<char>>)
    requires
        lists(s, dom),
    ensures
        sorted_keys(dom) == s,
{
    lemma_ascending_unique(sorted_keys(dom), s);
}

/// The entry at position `i` is what the map holds under `keys[i]`.
pub proof fn lemma_entry_at<V>(keys: Seq<Seq<char>>, values: Seq<V>, i: int)
    requires
        ascending(keys),
        keys.len() == values.len(),
        0 <= i < keys.len(),
    ensures
        keys.contains(keys[i]),
        keys.index_of(keys[i]) == i,
        entries_map(keys, values).contains_key(keys[i]),
        entries_map(keys, values)[keys[i]] == values[i],
{
    lemma_ascending_distinct(keys);
    assert(keys.contains(keys[i]));
}

/// A map from texts to values. It is walked in ascending order of the
/// keys.
#[derive(Debug, PartialEq, Eq)]
pub struct OrderedMap<V> {
    keys: Vec<String>,
    values: Vec<V>,
}

impl<V> View for OrderedMap<V> {
    type V = Map<Seq<char>, V>;

    open spec fn view(&self) -> Map<Seq<char>, V> {
        entries_map(self.key_seq(), self.value_seq())
    }
}

impl<V> OrderedMap<V> {
    /// The keys, in the order in which the map is walked.
    pub closed spec fn key_seq(&self) -> Seq<Seq<char>> {
        texts(self.keys@)
    }

    /// The values, each at the position of its key.
    pub closed spec fn value_seq(&self) -> Seq<V> {
        self.values@
    }

    /// Keys ascend strictly, and each has one value.
    pub open spec fn wf(&self) -> bool {
        &&& self.key_seq().len() == self.value_seq().len()
        &&& ascending(self.key_seq())
    }

    /// The keys are walked in ascending order.
    pub proof fn lemma_walk_order(&self)
        requires
            self.wf(),
        ensures
            self.key_seq() == sorted_keys(self@.dom()),
            lists(self.key_seq(), self@.dom()),
    {
        lemma_sorted_keys(self.key_seq(), self@.dom());
    }

    pub fn new() -> (m: Self)
        ensures
            m.wf(),
            m.key_seq() == Seq::<Seq<char>>::empty(),
            m.value_seq() == Seq::<V>::empty(),
            m@ == Map::<Seq<char>, V>::empty(),
    {
        let m = OrderedMap { keys: Vec::new(), values: Vec::new() };
        assert(m.key_seq() =~= Seq::<Seq<char>>::empty());
        assert(m@ =~= Map::<Seq<char>, V>::empty());
        m
    }

    pub fn len(&self) -> (n: usize)
        requires
            self.wf(),
        ensures
            n == self.key_seq().len(),
            n == self.value_seq().len(),
    {
        self.keys.len()
    }

    pub fn is_empty(&self) -> (b: bool)
        requires
            self.wf(),
        ensures
            b == (self.key_seq().len() == 0),
    {
        self.keys.len() == 0
    }

    /// The key at position `i` of the walk.
    pub fn key_at(&self, i: usize) -> (k: &String)
        requires
            self.wf(),
            i < self.key_seq().len(),
        ensures
            k@ == self.key_seq()[i as int],
    {
        &self.keys[i]
    }

    /// The value at position `i` of the walk.
    pub fn value_at(&self, i: usize) -> (v: &V)
        requires
            self.wf(),
            i < self.value_seq().len(),
        ensures
            *v == self.value_seq()[i as int],
    {
        &self.values[i]
    }

    /// Where `key` stands in the walk, if the map holds it.
    pub fn position(&self, key: &str) -> (at: Option<usize>)
        requires
            self.wf(),
        ensures
            match at {
                Some(i) => i < self.key_seq().len() && self.key_seq()[i as int] == key@
                    && self.key_seq().index_of(key@) == i,
                None => !self.key_seq().contains(key@),
            },
            at.is_some() == self@.contains_key(key@),
    {
        let mut i: usize = 0;
        while i < self.keys.len()
            invariant
                self.wf(),
                i <= self.keys@.len(),
                forall|j: int| 0 <= j < i ==> self.key_seq()[j] != key@,
            decreases self.keys.len() - i,
        {
            match compare_text(self.keys[i].as_str(), key) {
                Position::Same => {
                    proof {
                        lemma_entry_at(self.key_seq(), self.value_seq(), i as int);
                    }
                    return Some(i);
                },
                _ => {},
            }
            i += 1;
        }
        None
    }

    pub fn contains_key(&self, key: &str) -> (b: bool)
        requires
            self.wf(),
        ensures
            b == self@.contains_key(key@),
    {
        self.position(key).is_some()
    }

    pub fn get(&self, key: &str) -> (found: Option<&V>)
        requires
            self.wf(),
        ensures
            match found {
                Some(v) => self@.contains_key(key@) && *v == self@[key@],
                None => !self@.contains_key(key@),
            },
    {
        match self.position(key) {
            Some(i) => Some(&self.values[i]),
            None => None,
        }
    }

    /// Puts `value` under `key`, in place of what was there, and hands
    /// back what was there.
    pub fn insert(&mut self, key: String, value: V) -> (prev: Option<V>)
        requires
            old(self).wf(),
        ensures
            final(self).wf(),
            final(self)@ == old(self)@.insert(key@, value),
            prev == (if old(self)@.contains_key(key@) {
                Some(old(self)@[key@])
            } else {
                None
            }),
    {
        let ghost keys0 = self.key_seq();
        let ghost values0 = self.value_seq();
        let mut i: usize = 0;
        while i < self.keys.len()
            invariant
                self.wf(),
                self.key_seq() == keys0,
                self.value_seq() == values0,
                old(self).key_seq() == keys0,
                old(self).value_seq() == values0,
                i <= keys0.len(),
                forall|j: int| 0 <= j < i ==> text_before(#[trigger] keys0[j], key@),
            ensures
                i == keys0.len() || text_before(key@, keys0[i as int]),
            decreases self.keys.len() - i,
        {
            match compare_text(self.keys[i].as_str(), key.as_str()) {
                Position::Before => {
                    i += 1;
                },
                Position::Same => {
                    let mut value = value;
                    proof {
                        lemma_entry_at(keys0, values0, i as int);
                        lemma_put_at(keys0, values0, i as int, value);
                    }
                    core::mem::swap(&mut self.values[i], &mut value);
                    return Some(value);
                },
                Position::After => {
                    break ;
                },
            }
        }
        proof {
            lemma_put_between(keys0, values0, i as int, key@, value);
        }
        self.keys.insert(i, key);
        self.values.insert(i, value);
        assert(self.key_seq() =~= keys0.insert(i as int, key@));
        None
    }

    /// The keys, in the order of the walk.
    pub fn keys(&self) -> (keys: &Vec<String>)
        requires
            self.wf(),
        ensures
            texts(keys@) == self.key_seq(),
    {
        &self.keys
    }

    /// The keys and the values, each in the order of the walk.
    pub fn into_parts(self) -> (parts: (Vec<String>, Vec<V>))
        requires
            self.wf(),
        ensures
            texts(parts.0@) == self.key_seq(),
            parts.1@ == self.value_seq(),
    {
        (self.keys, self.values)
    }

    /// The value at position `i` of the walk, to be changed in place.
    pub fn value_at_mut(&mut self, i: usize) -> (v: &mut V)
        requires
            old(self).wf(),
            i < old(self).value_seq().len(),
        ensures
            *v == old(self).value_seq()[i as int],
            final(self).key_seq() == old(self).key_seq(),
            final(self).value_seq() == old(self).value_seq().update(i as int, *final(v)),
    {
        &mut self.values[i]
    }
}

/// Changing the value at position `i` changes the map under `keys[i]` only.
pub proof fn lemma_put_at<V>(keys: Seq<Seq<char>>, values: Seq<V>, i: int, v: V)
    requires
        ascending(keys),
        keys.len() == values.len(),
        0 <= i < keys.len(),
    ensures
        entries_map(keys, values.update(i, v)) == entries_map(keys, values).insert(keys[i], v),
{
    lemma_ascending_distinct(keys);
    let a = entries_map(keys, values.update(i, v));
    let b = entries_map(keys, values).insert(keys[i], v);
    assert(keys.contains(keys[i]));
    assert forall|k: Seq<char>| a.contains_key(k) implies #[trigger] a[k] == b[k] by {
        let j = keys.index_of(k);
        assert(keys[j] == k);
    }
    assert(a =~= b);
}

/// A key that stands between its neighbours can be put in at `i`: the keys
/// still ascend, and the map gains the one entry.
pub proof fn lemma_put_between<V>(keys: Seq<Seq<char>>, values: Seq<V>, i: int, k: Seq<char>, v: V)
    requires
        ascending(keys),
        keys.len() == values.len(),
        0 <= i <= keys.len(),
        forall|j: int| 0 <= j < i ==> text_before(#[trigger] keys[j], k),
        i == keys.len() || text_before(k, keys[i]),
    ensures
        !keys.contains(k),
        ascending(keys.insert(i, k)),
        keys.insert(i, k).index_of(k) == i,
        entries_map(keys.insert(i, k), values.insert(i, v)) == entries_map(keys, values).insert(k, v),
{
    let keys1 = keys.insert(i, k);
    let values1 = values.insert(i, v);
    assert forall|j: int| i <= j < keys.len() implies text_before(k, #[trigger] keys[j]) by {
        if j > i {
            lemma_text_before_transitive(k, keys[i], keys[j]);
        }
    }
    assert forall|j: int| 0 <= j < keys.len() implies #[trigger] keys[j] != k by {
        lemma_text_before_total(keys[j], k);
    }
    assert forall|a: int, b: int| 0 <= a < b < keys1.len() implies text_before(
        #[trigger] keys1[a],
        #[trigger] keys1[b],
    ) by {
        if a < i && b > i {
            assert(keys1[a] == keys[a]);
            assert(keys1[b] == keys[b - 1]);
        } else if a < i && b < i {
            assert(keys1[a] == keys[a] && keys1[b] == keys[b]);
        } else if a > i {
            assert(keys1[a] == keys[a - 1] && keys1[b] == keys[b - 1]);
        }
    }
    lemma_ascending_distinct(keys);
    lemma_ascending_distinct(keys1);
    assert(keys1[i] == k);
    assert(keys1.contains(k));
    let m0 = entries_map(keys, values);
    let m1 = entries_map(keys1, values1);
    assert forall|x: Seq<char>| m1.contains_key(x) == m0.insert(k, v).contains_key(x) by {
        if keys.contains(x) {
            let j = keys.index_of(x);
            if j < i {
                assert(keys1[j] == x);
            } else {
                assert(keys1[j + 1] == x);
            }
        }
        if keys1.contains(x) && x != k {
            let j = keys1.index_of(x);
            if j < i {
                assert(keys[j] == x);
            } else {
                assert(keys[j - 1] == x);
            }
        }
    }
    assert forall|x: Seq<char>| m1.contains_key(x) implies #[trigger] m1[x] == m0.insert(k, v)[x] by {
        let j = keys1.index_of(x);
        if x != k {
            if j < i {
                assert(keys[j] == x);
                assert(keys.index_of(x) == j);
            } else {
                assert(keys[j - 1] == x);
                assert(keys.index_of(x) == j - 1);
            }
        }
    }
    assert(m1 =~= m0.insert(k, v));
}

} // verus!
