//! A small string-keyed map, used for element attributes and resolved
//! property maps. Keys are compared by character content; the abstract
//! value of a map is a `Map<Seq<char>, V>`.

use vstd::prelude::*;

use crate::text::str_eq;

verus! {

/// The map denoted by an association list; later pairs override earlier ones.
pub open spec fn map_of<V>(pairs: Seq<(String, V)>) -> Map<Seq<char>, V>
    decreases pairs.len(),
{
    if pairs.len() == 0 {
        Map::empty()
    } else {
        map_of(pairs.drop_last()).insert(pairs.last().0@, pairs.last().1)
    }
}

pub proof fn lemma_map_of_contains<V>(pairs: Seq<(String, V)>, k: Seq<char>)
    ensures
        map_of(pairs).contains_key(k) <==> exists|i: int| 0 <= i < pairs.len() && pairs[i].0@ == k,
    decreases pairs.len(),
{
    if pairs.len() > 0 {
        lemma_map_of_contains(pairs.drop_last(), k);
        if pairs.last().0@ == k {
            assert(pairs[pairs.len() - 1].0@ == k);
        } else {
            if map_of(pairs).contains_key(k) {
                let i = choose|i: int| 0 <= i < pairs.drop_last().len() && pairs.drop_last()[i].0@
                    == k;
                assert(pairs[i].0@ == k);
            }
            if exists|i: int| 0 <= i < pairs.len() && pairs[i].0@ == k {
                let i = choose|i: int| 0 <= i < pairs.len() && pairs[i].0@ == k;
                assert(i < pairs.len() - 1);
                assert(pairs.drop_last()[i].0@ == k);
            }
        }
    }
}

pub proof fn lemma_map_of_get<V>(pairs: Seq<(String, V)>, i: int)
    requires
        0 <= i < pairs.len(),
        forall|j: int| i < j < pairs.len() ==> pairs[j].0@ != pairs[i].0@,
    ensures
        map_of(pairs).contains_key(pairs[i].0@),
        map_of(pairs)[pairs[i].0@] == pairs[i].1,
    decreases pairs.len(),
{
    if i == pairs.len() - 1 {
    } else {
        assert(pairs.drop_last()[i] == pairs[i]);
        lemma_map_of_get(pairs.drop_last(), i);
    }
}

pub proof fn lemma_map_of_remove<V>(pairs: Seq<(String, V)>, i: int)
    requires
        0 <= i < pairs.len(),
        forall|j: int| 0 <= j < pairs.len() && j != i ==> pairs[j].0@ != pairs[i].0@,
    ensures
        map_of(pairs.remove(i)) =~= map_of(pairs).remove(pairs[i].0@),
    decreases pairs.len(),
{
    lemma_map_of_contains(pairs, pairs[i].0@);
    lemma_map_of_contains(pairs.remove(i), pairs[i].0@);
    if i == pairs.len() - 1 {
        assert(pairs.remove(i) =~= pairs.drop_last());
        assert(!map_of(pairs.drop_last()).contains_key(pairs[i].0@)) by {
            lemma_map_of_contains(pairs.drop_last(), pairs[i].0@);
            if map_of(pairs.drop_last()).contains_key(pairs[i].0@) {
                let j = choose|j: int|
                    0 <= j < pairs.drop_last().len() && pairs.drop_last()[j].0@ == pairs[i].0@;
                assert(pairs[j].0@ == pairs[i].0@);
            }
        }
        assert(map_of(pairs.drop_last()) =~= map_of(pairs).remove(pairs[i].0@));
    } else {
        assert(pairs.drop_last()[i] == pairs[i]);
        lemma_map_of_remove(pairs.drop_last(), i);
        assert(pairs.remove(i).drop_last() =~= pairs.drop_last().remove(i));
        assert(pairs.remove(i).last() == pairs.last());
        assert(map_of(pairs.remove(i)) == map_of(pairs.drop_last().remove(i)).insert(
            pairs.last().0@,
            pairs.last().1,
        ));
    }
}

/// A map from strings to values of type `V`, stored as a vector of pairs
/// whose keys are pairwise distinct.
#[derive(Debug)]
pub struct StrMap<V> {
    pairs: Vec<(String, V)>,
}

impl<V> View for StrMap<V> {
    type V = Map<Seq<char>, V>;

    closed spec fn view(&self) -> Map<Seq<char>, V> {
        map_of(self.pairs@)
    }
}

impl<V> StrMap<V> {
    /// Well-formed: keys are pairwise distinct by character content.
    pub closed spec fn wf(&self) -> bool {
        forall|i: int, j: int|
            0 <= i < j < self.pairs@.len() ==> self.pairs@[i].0@ != self.pairs@[j].0@
    }

    /// The empty map.
    pub fn new() -> (r: StrMap<V>)
        ensures
            r.wf(),
            r@ == Map::<Seq<char>, V>::empty(),
    {
        StrMap { pairs: Vec::new() }
    }

    /// Look up a key; `Some` exactly when the key is present.
    pub fn get(&self, key: &str) -> (r: Option<&V>)
        requires
            self.wf(),
        ensures
            match r {
                Some(v) => self@.contains_key(key@) && *v == self@[key@],
                None => !self@.contains_key(key@),
            },
    {
        let n = self.pairs.len();
        let mut i: usize = 0;
        while i < n
            invariant
                self.wf(),
                n == self.pairs@.len(),
                i <= n,
                forall|j: int| 0 <= j < i ==> self.pairs@[j].0@ != key@,
            decreases n - i,
        {
            if str_eq(self.pairs[i].0.as_str(), key) {
                proof {
                    lemma_map_of_get(self.pairs@, i as int);
                }
                return Some(&self.pairs[i].1);
            }
            i = i + 1;
        }
        proof {
            lemma_map_of_contains(self.pairs@, key@);
        }
        None
    }

    /// Whether a key is present.
    pub fn contains_key(&self, key: &str) -> (r: bool)
        requires
            self.wf(),
        ensures
            r == self@.contains_key(key@),
    {
        match self.get(key) {
            Some(_) => true,
            None => false,
        }
    }

    /// Insert a binding, replacing any previous binding of the same key.
    pub fn insert(&mut self, key: String, value: V)
        requires
            old(self).wf(),
        ensures
            final(self).wf(),
            final(self)@ == old(self)@.insert(key@, value),
    {
        let n = self.pairs.len();
        let mut i: usize = 0;
        while i < n
            invariant
                self.wf(),
                self.pairs@ == old(self).pairs@,
                n == self.pairs@.len(),
                i <= n,
                forall|j: int| 0 <= j < i ==> self.pairs@[j].0@ != key@,
            decreases n - i,
        {
            if str_eq(self.pairs[i].0.as_str(), key.as_str()) {
                proof {
                    lemma_map_of_remove(self.pairs@, i as int);
                }
                let ghost removed = self.pairs@.remove(i as int);
                self.pairs.remove(i);
                self.pairs.push((key, value));
                proof {
                    assert(self.pairs@.drop_last() =~= removed);
                    assert(map_of(self.pairs@) == map_of(removed).insert(key@, value));
                    assert(self@ =~= old(self)@.insert(key@, value));
                }
                return ;
            }
            i = i + 1;
        }
        self.pairs.push((key, value));
        proof {
            assert(self.pairs@.drop_last() =~= old(self).pairs@);
            assert(self@ =~= old(self)@.insert(key@, value));
        }
    }

}

} // verus!
