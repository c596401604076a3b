use vstd::prelude::*;
use crate::time::str_eq_chars;

verus! {

/// Last-match lookup in an association list, scanning from the end: the most
/// recent write under a name wins.
pub open spec fn assoc_get<V>(s: Seq<(String, V)>, k: Seq<char>) -> Option<V>
    decreases s.len(),
{
    if s.len() == 0 {
        None
    } else if s.last().0@ == k {
        Some(s.last().1)
    } else {
        assoc_get(s.drop_last(), k)
    }
}

/// A mutable name-to-value table with overwrite-on-write semantics, the shape
/// shared by the object, commit and reference stores.
pub struct KvStore<V> {
    pairs: Vec<(String, V)>,
}

impl<V> KvStore<V> {
    /// The value most recently stored under `k`, if any.
    pub closed spec fn spec_get(self, k: Seq<char>) -> Option<V> {
        assoc_get(self.pairs@, k)
    }

    pub fn new() -> (r: Self)
        ensures
            forall|k: Seq<char>| r.spec_get(k) is None,
    {
        KvStore { pairs: Vec::new() }
    }

    /// Stores `v` under `k`, replacing whatever was there.
    pub fn set(&mut self, k: String, v: V)
        ensures
            final(self).spec_get(k@) == Some(v),
            forall|k2: Seq<char>| k2 != k@ ==> final(self).spec_get(k2) == old(self).spec_get(k2),
    {
        let ghost kv = k@;
        self.pairs.push((k, v));
        proof {
            assert(self.pairs@.drop_last() =~= old(self).pairs@);
            assert(self.pairs@.last().0@ == kv);
        }
    }

    /// The value stored under `k`, if any.
    pub fn get(&self, k: &str) -> (r: Option<&V>)
        ensures
            match r {
                Some(v) => self.spec_get(k@) == Some(*v),
                None => self.spec_get(k@) is None,
            },
    {
        let mut i: usize = self.pairs.len();
        proof {
            assert(self.pairs@.take(i as int) =~= self.pairs@);
        }
        while i > 0
            invariant
                i <= self.pairs@.len(),
                assoc_get(self.pairs@, k@) == assoc_get(self.pairs@.take(i as int), k@),
            decreases i,
        {
            let idx = i - 1;
            proof {
                assert(self.pairs@.take(i as int).last() == self.pairs@[idx as int]);
                assert(self.pairs@.take(i as int).drop_last() =~= self.pairs@.take(idx as int));
            }
            if str_eq_chars(self.pairs[idx].0.as_str(), k) {
                return Some(&self.pairs[idx].1);
            }
            i = idx;
        }
        None
    }
}

} // verus!
