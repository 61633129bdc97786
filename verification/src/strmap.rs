//! A string-keyed map with verified last-write-wins semantics.
//!
//! The rule tree stores its scalar definitions, arrays, topics and code
//! objects in maps keyed by name.  This module provides a small
//! association-list map whose view is a mathematical `Map` over the key
//! characters, together with a string set used for topic inclusion
//! lists.

use vstd::prelude::*;

use crate::text::str_eq_str;

verus! {

/// Every key occurs at most once.
pub open spec fn unique_keys<V>(s: Seq<(String, V)>) -> bool {
    forall|i: int, j: int| 0 <= i < j < s.len() ==> s[i].0@ != s[j].0@
}

/// The map described by an association list; a later pair with the same
/// key would win, though well-formed maps never hold one.
pub open spec fn kv_map<V: DeepView>(s: Seq<(String, V)>) -> Map<Seq<char>, V::V>
    decreases s.len(),
{
    if s.len() == 0 {
        Map::empty()
    } else {
        kv_map(s.drop_last()).insert(s.last().0@, s.last().1.deep_view())
    }
}

proof fn lemma_kv_contains_of_index<V: DeepView>(s: Seq<(String, V)>, i: int)
    requires
        0 <= i < s.len(),
    ensures
        kv_map(s).contains_key(s[i].0@),
    decreases s.len(),
{
    if i < s.len() - 1 {
        lemma_kv_contains_of_index(s.drop_last(), i);
    }
}

proof fn lemma_kv_not_contains<V: DeepView>(s: Seq<(String, V)>, k: Seq<char>)
    requires
        forall|i: int| 0 <= i < s.len() ==> s[i].0@ != k,
    ensures
        !kv_map(s).contains_key(k),
    decreases s.len(),
{
    if s.len() > 0 {
        lemma_kv_not_contains(s.drop_last(), k);
    }
}

proof fn lemma_kv_value<V: DeepView>(s: Seq<(String, V)>, i: int)
    requires
        unique_keys(s),
        0 <= i < s.len(),
    ensures
        kv_map(s)[s[i].0@] == s[i].1.deep_view(),
    decreases s.len(),
{
    if i == s.len() - 1 {
    } else {
        lemma_kv_value(s.drop_last(), i);
        assert(s[i].0@ != s.last().0@);
    }
}

proof fn lemma_kv_remove<V: DeepView>(s: Seq<(String, V)>, i: int)
    requires
        unique_keys(s),
        0 <= i < s.len(),
    ensures
        unique_keys(s.remove(i)),
        kv_map(s.remove(i)) == kv_map(s).remove(s[i].0@),
    decreases s.len(),
{
    let k = s[i].0@;
    if i == s.len() - 1 {
        assert(s.remove(i) =~= s.drop_last());
        lemma_kv_not_contains(s.drop_last(), k);
        assert(kv_map(s.drop_last()).remove(k) =~= kv_map(s.drop_last()));
        assert(kv_map(s).remove(k) =~= kv_map(s.drop_last()).insert(k, s.last().1.deep_view())
            .remove(k));
        assert(kv_map(s.drop_last()).insert(k, s.last().1.deep_view()).remove(k) =~= kv_map(
            s.drop_last(),
        ).remove(k));
    } else {
        lemma_kv_remove(s.drop_last(), i);
        assert(s.remove(i).drop_last() =~= s.drop_last().remove(i));
        assert(s.remove(i).last() == s.last());
        assert(kv_map(s.remove(i)) == kv_map(s.drop_last().remove(i)).insert(
            s.last().0@,
            s.last().1.deep_view(),
        ));
        assert(k != s.last().0@);
        assert(kv_map(s.drop_last()).remove(k).insert(s.last().0@, s.last().1.deep_view()) =~=
            kv_map(s.drop_last()).insert(s.last().0@, s.last().1.deep_view()).remove(k));
    }
}

/// A map from names to values, keyed by the characters of the name.
#[derive(Debug)]
pub struct StrMap<V> {
    pairs: Vec<(String, V)>,
}

impl<V: DeepView> View for StrMap<V> {
    type V = Map<Seq<char>, <V as DeepView>::V>;

    closed spec fn view(&self) -> Map<Seq<char>, <V as DeepView>::V> {
        kv_map(self.pairs@)
    }
}

impl<V: DeepView> StrMap<V> {
    /// Keys are unique; established by the constructor and preserved by
    /// every operation.
    pub closed spec fn wf(&self) -> bool {
        unique_keys(self.pairs@)
    }

    /// The keys, in insertion order.
    pub closed spec fn spec_keys(&self) -> Seq<Seq<char>> {
        Seq::new(self.pairs@.len(), |i: int| self.pairs@[i].0@)
    }

    /// Each key at its position; the key list enumerates the domain.
    pub proof fn lemma_keys(&self)
        requires
            self.wf(),
        ensures
            forall|i: int, j: int|
                0 <= i < j < self.spec_keys().len() ==> self.spec_keys()[i]
                    != self.spec_keys()[j],
            forall|i: int|
                0 <= i < self.spec_keys().len() ==> self@.contains_key(#[trigger] self.spec_keys()[i]),
            forall|k: Seq<char>|
                self@.contains_key(k) ==> exists|i: int|
                    0 <= i < self.spec_keys().len() && self.spec_keys()[i] == k,
    {
        assert forall|i: int|
            0 <= i < self.spec_keys().len() implies self@.contains_key(
            #[trigger] self.spec_keys()[i],
        ) by {
            lemma_kv_contains_of_index(self.pairs@, i);
        }
        assert forall|k: Seq<char>| self@.contains_key(k) implies exists|i: int|
            0 <= i < self.spec_keys().len() && self.spec_keys()[i] == k by {
            if forall|i: int| 0 <= i < self.pairs@.len() ==> self.pairs@[i].0@ != k {
                lemma_kv_not_contains(self.pairs@, k);
            } else {
                let i = choose|i: int| 0 <= i < self.pairs@.len() && self.pairs@[i].0@ == k;
                assert(self.spec_keys()[i] == k);
            }
        }
    }

    pub fn new() -> (r: Self)
        ensures
            r.wf(),
            r@ == Map::<Seq<char>, <V as DeepView>::V>::empty(),
            r.spec_keys() == Seq::<Seq<char>>::empty(),
    {
        let r = StrMap { pairs: Vec::new() };
        proof {
            assert(r.spec_keys() =~= Seq::<Seq<char>>::empty());
        }
        r
    }

    fn index_of(&self, k: &str) -> (r: Option<usize>)
        ensures
            match r {
                Some(i) => i < self.pairs@.len() && self.pairs@[i as int].0@ == k@,
                None => forall|i: int| 0 <= i < self.pairs@.len() ==> self.pairs@[i].0@ != k@,
            },
    {
        let n = self.pairs.len();
        let mut i: usize = 0;
        while i < n
            invariant
                n == self.pairs@.len(),
                i <= n,
                forall|j: int| 0 <= j < i ==> self.pairs@[j].0@ != k@,
            decreases n - i,
        {
            if str_eq_str(self.pairs[i].0.as_str(), k) {
                return Some(i);
            }
            i += 1;
        }
        None
    }

    pub fn contains_key(&self, k: &str) -> (r: bool)
        ensures
            r == self@.contains_key(k@),
    {
        let f = self.index_of(k);
        proof {
            match f {
                Some(i) => lemma_kv_contains_of_index(self.pairs@, i as int),
                None => lemma_kv_not_contains(self.pairs@, k@),
            }
        }
        f.is_some()
    }

    pub fn get(&self, k: &str) -> (r: Option<&V>)
        requires
            self.wf(),
        ensures
            match r {
                Some(v) => self@.contains_key(k@) && v.deep_view() == self@[k@],
                None => !self@.contains_key(k@),
            },
    {
        match self.index_of(k) {
            Some(i) => {
                proof {
                    lemma_kv_contains_of_index(self.pairs@, i as int);
                    lemma_kv_value(self.pairs@, i as int);
                }
                Some(&self.pairs[i].1)
            },
            None => {
                proof {
                    lemma_kv_not_contains(self.pairs@, k@);
                }
                None
            },
        }
    }

    /// Removes and returns the value stored under `k`.
    pub fn take(&mut self, k: &str) -> (r: Option<V>)
        requires
            old(self).wf(),
        ensures
            final(self).wf(),
            match r {
                Some(v) => old(self)@.contains_key(k@) && v.deep_view() == old(self)@[k@]
                    && final(self)@ == old(self)@.remove(k@) && final(self).spec_keys().len()
                    == old(self).spec_keys().len() - 1,
                None => !old(self)@.contains_key(k@) && final(self)@ == old(self)@ && final(self).spec_keys() == old(self).spec_keys(),
            },
    {
        match self.index_of(k) {
            Some(i) => {
                proof {
                    lemma_kv_contains_of_index(self.pairs@, i as int);
                    lemma_kv_value(self.pairs@, i as int);
                    lemma_kv_remove(self.pairs@, i as int);
                }
                let (_name, v) = self.pairs.remove(i);
                Some(v)
            },
            None => {
                proof {
                    lemma_kv_not_contains(self.pairs@, k@);
                }
                None
            },
        }
    }

    /// Inserts `v` under `k`, overwriting any earlier value.
    pub fn insert(&mut self, k: String, v: V)
        requires
            old(self).wf(),
        ensures
            final(self).wf(),
            final(self)@ == old(self)@.insert(k@, v.deep_view()),
    {
        let _ = self.take(k.as_str());
        let ghost mid = self.pairs@;
        self.pairs.push((k, v));
        proof {
            assert(self.pairs@.drop_last() =~= mid);
            assert forall|i: int, j: int|
                0 <= i < j < self.pairs@.len() implies self.pairs@[i].0@ != self.pairs@[j].0@ by {
                if j == self.pairs@.len() - 1 {
                    lemma_kv_contains_of_index(mid, i);
                    assert(kv_map(mid).contains_key(mid[i].0@));
                }
            }
            assert(kv_map(mid).insert(k@, v.deep_view()) =~= old(self)@.insert(k@, v.deep_view()));
        }
    }

    /// Removes and returns the first pair, in key order.
    pub fn take_first(&mut self) -> (r: Option<(String, V)>)
        requires
            old(self).wf(),
        ensures
            final(self).wf(),
            match r {
                Some(kv) => old(self)@.contains_key(kv.0@) && kv.1.deep_view() == old(self)@[kv.0@]
                    && final(self)@ == old(self)@.remove(kv.0@)
                    && final(self).spec_keys().len() == old(self).spec_keys().len() - 1,
                None => final(self)@ == old(self)@ && final(self).spec_keys() == old(
                    self,
                ).spec_keys() && old(self)@ == Map::<Seq<char>, <V as DeepView>::V>::empty()
                    && old(self).spec_keys().len() == 0,
            },
    {
        if self.pairs.len() == 0 {
            proof {
                assert(self.pairs@.len() == 0);
                assert(kv_map(self.pairs@) =~= Map::<Seq<char>, <V as DeepView>::V>::empty());
            }
            return None;
        }
        proof {
            lemma_kv_contains_of_index(self.pairs@, 0);
            lemma_kv_value(self.pairs@, 0);
            lemma_kv_remove(self.pairs@, 0);
        }
        let kv = self.pairs.remove(0);
        Some(kv)
    }

    /// Number of entries.
    pub fn len(&self) -> (r: usize)
        ensures
            r == self.spec_keys().len(),
    {
        self.pairs.len()
    }

    pub fn key_at(&self, i: usize) -> (r: &String)
        requires
            i < self.spec_keys().len(),
        ensures
            r@ == self.spec_keys()[i as int],
    {
        &self.pairs[i].0
    }

    pub fn value_at(&self, i: usize) -> (r: &V)
        requires
            self.wf(),
            i < self.spec_keys().len(),
        ensures
            self@.contains_key(self.spec_keys()[i as int]),
            r.deep_view() == self@[self.spec_keys()[i as int]],
    {
        proof {
            lemma_kv_contains_of_index(self.pairs@, i as int);
            lemma_kv_value(self.pairs@, i as int);
        }
        &self.pairs[i].1
    }

    /// Adds every entry of `other`; on a shared key the entry of
    /// `other` wins.
    pub fn extend(&mut self, other: StrMap<V>)
        requires
            old(self).wf(),
            other.wf(),
        ensures
            final(self).wf(),
            final(self)@ == old(self)@.union_prefer_right(other@),
    {
        let ghost target = old(self)@.union_prefer_right(other@);
        let mut rest = other;
        let mut going = true;
        while going
            invariant
                self.wf(),
                rest.wf(),
                going ==> self@.union_prefer_right(rest@) == target,
                !going ==> self@ == target,
            decreases rest.spec_keys().len() + (if going { 1int } else { 0int }),
        {
            let ghost self0 = self@;
            let ghost rest0 = rest@;
            match rest.take_first() {
                Some((k, v)) => {
                    proof {
                        assert(self0.insert(k@, v.deep_view()).union_prefer_right(
                            rest0.remove(k@),
                        ) =~= self0.union_prefer_right(rest0));
                    }
                    self.insert(k, v);
                },
                None => {
                    proof {
                        assert(rest0 =~= Map::<Seq<char>, <V as DeepView>::V>::empty());
                        assert(self0.union_prefer_right(rest0) =~= self0);
                    }
                    going = false;
                },
            }
        }
    }
}

/// A set of names, keyed by their characters.
#[derive(Debug)]
pub struct StrSet {
    items: Vec<String>,
}

impl View for StrSet {
    type V = Set<Seq<char>>;

    closed spec fn view(&self) -> Set<Seq<char>> {
        Set::new(|k: Seq<char>| exists|i: int| 0 <= i < self.items@.len() && self.items@[i]@ == k)
    }
}

impl StrSet {
    pub fn new() -> (r: Self)
        ensures
            r@ == Set::<Seq<char>>::empty(),
    {
        let r = StrSet { items: Vec::new() };
        proof {
            assert(r@ =~= Set::<Seq<char>>::empty());
        }
        r
    }

    pub fn contains(&self, k: &str) -> (r: bool)
        ensures
            r == self@.contains(k@),
    {
        let n = self.items.len();
        let mut i: usize = 0;
        while i < n
            invariant
                n == self.items@.len(),
                i <= n,
                forall|j: int| 0 <= j < i ==> self.items@[j]@ != k@,
            decreases n - i,
        {
            if str_eq_str(self.items[i].as_str(), k) {
                return true;
            }
            i += 1;
        }
        false
    }

    pub fn insert(&mut self, k: String)
        ensures
            final(self)@ == old(self)@.insert(k@),
    {
        let ghost kv = k@;
        let ghost items0 = self.items@;
        let present = self.contains(k.as_str());
        if !present {
            self.items.push(k);
            proof {
                assert forall|c: Seq<char>| #[trigger] self@.contains(c) implies old(
                    self,
                )@.insert(kv).contains(c) by {
                    let i = choose|i: int| 0 <= i < self.items@.len() && self.items@[i]@ == c;
                    if i < items0.len() {
                        assert(items0[i]@ == c);
                        assert(old(self)@.contains(c));
                    } else {
                        assert(c == kv);
                    }
                }
                assert forall|c: Seq<char>| #[trigger] old(self)@.insert(kv).contains(c)
                    implies self@.contains(c) by {
                    if c == kv {
                        assert(self.items@.last()@ == c);
                        assert(self.items@[self.items@.len() - 1]@ == c);
                    } else {
                        let i = choose|i: int| 0 <= i < items0.len() && items0[i]@ == c;
                        assert(self.items@[i]@ == c);
                    }
                }
                assert(self@ =~= old(self)@.insert(kv));
            }
        } else {
            proof {
                assert(old(self)@.contains(kv));
                assert(self@ =~= old(self)@.insert(kv));
            }
        }
    }
}

} // verus!
