//! A table of values keyed by strings, kept in the order in which keys were first
//! entered.
use vstd::prelude::*;

verus! {

/// The map that a sequence of key-value pairs describes, later pairs taking
/// precedence over earlier ones with the same key.
pub open spec fn pairs_map<W>(p: Seq<(Seq<char>, W)>) -> Map<Seq<char>, W>
    decreases p.len(),
{
    if p.len() == 0 {
        Map::empty()
    } else {
        pairs_map(p.drop_last()).insert(p.last().0, p.last().1)
    }
}

/// No key occurs twice among the pairs.
pub open spec fn keys_unique<W>(p: Seq<(Seq<char>, W)>) -> bool {
    forall|i: int, j: int| 0 <= i < j < p.len() ==> #[trigger] p[i].0 != #[trigger] p[j].0
}

proof fn lemma_pairs_map_lookup<W>(p: Seq<(Seq<char>, W)>, k: Seq<char>)
    requires
        keys_unique(p),
    ensures
        pairs_map(p).dom().contains(k) <==> exists|i: int| 0 <= i < p.len() && #[trigger] p[i].0
            == k,
        forall|i: int| 0 <= i < p.len() && #[trigger] p[i].0 == k ==> pairs_map(p)[k] == p[i].1,
    decreases p.len(),
{
    if p.len() > 0 {
        let q = p.drop_last();
        lemma_pairs_map_lookup(q, k);
        if exists|i: int| 0 <= i < p.len() && #[trigger] p[i].0 == k {
            let i = choose|i: int| 0 <= i < p.len() && #[trigger] p[i].0 == k;
            if i < p.len() - 1 {
                assert(q[i].0 == k);
            }
        }
        assert forall|i: int| 0 <= i < q.len() && #[trigger] q[i].0 == k implies p[i].0 == k by {
            assert(q[i] == p[i]);
        }
    }
}

proof fn lemma_pairs_map_update<W>(p: Seq<(Seq<char>, W)>, i: int, w: W)
    requires
        keys_unique(p),
        0 <= i < p.len(),
    ensures
        pairs_map(p.update(i, (p[i].0, w))) == pairs_map(p).insert(p[i].0, w),
    decreases p.len(),
{
    let q = p.update(i, (p[i].0, w));
    if i == p.len() - 1 {
        assert(q.drop_last() =~= p.drop_last());
        assert(pairs_map(p).insert(p[i].0, w) =~= pairs_map(p.drop_last()).insert(p[i].0, w));
    } else {
        lemma_pairs_map_update(p.drop_last(), i, w);
        assert(q.drop_last() =~= p.drop_last().update(i, (p[i].0, w)));
        assert(p.last().0 != p[i].0);
        assert(pairs_map(q) =~= pairs_map(p).insert(p[i].0, w));
    }
}

proof fn lemma_pairs_map_remove<W>(p: Seq<(Seq<char>, W)>, i: int)
    requires
        keys_unique(p),
        0 <= i < p.len(),
    ensures
        pairs_map(p.remove(i)) == pairs_map(p).remove(p[i].0),
        keys_unique(p.remove(i)),
    decreases p.len(),
{
    let q = p.remove(i);
    assert forall|a: int, b: int| 0 <= a < b < q.len() implies #[trigger] q[a].0 != #[trigger] q[b].0 by {
        let a2 = if a < i { a } else { a + 1 };
        let b2 = if b < i { b } else { b + 1 };
        assert(q[a] == p[a2] && q[b] == p[b2]);
    }
    if i == p.len() - 1 {
        assert(q =~= p.drop_last());
        lemma_pairs_map_lookup(q, p[i].0);
        assert(!pairs_map(q).dom().contains(p[i].0));
        assert(pairs_map(q) =~= pairs_map(p).remove(p[i].0));
    } else {
        lemma_pairs_map_remove(p.drop_last(), i);
        assert(q.drop_last() =~= p.drop_last().remove(i));
        assert(q.last() == p.last());
        assert(p.last().0 != p[i].0);
        assert(pairs_map(q) =~= pairs_map(p).remove(p[i].0));
    }
}

/// Values keyed by strings, in the order in which their keys were first entered.
///
/// The server keeps its routes and a request's parameters by string key. vstd
/// states what a `HashMap` lookup returns only for key types that obey its key
/// model, which it grants to primitive types and not to `String` (claiming it for
/// `String` would be an assumption), and the order in which a `HashMap` is walked is
/// left open; a vector of pairs with distinct keys gives exact lookups and a fixed
/// order in which patterns are tried.
pub struct StrMap<V> {
    entries: Vec<(String, V)>,
}

impl<V: View> StrMap<V> {
    /// The entries, in order, with keys and values taken by their views.
    pub closed spec fn pairs(&self) -> Seq<(Seq<char>, V::V)> {
        self.entries@.map_values(|e: (String, V)| (e.0@, e.1@))
    }

    /// The table is well formed: no key occurs twice.
    pub open spec fn wf(&self) -> bool {
        keys_unique(self.pairs())
    }

    /// The table as a map.
    pub open spec fn map(&self) -> Map<Seq<char>, V::V> {
        pairs_map(self.pairs())
    }

    /// An empty table.
    pub fn new() -> (res: Self)
        ensures
            res.wf(),
            res.pairs() == Seq::<(Seq<char>, V::V)>::empty(),
            res.map() == Map::<Seq<char>, V::V>::empty(),
    {
        let res = StrMap { entries: Vec::new() };
        assert(res.pairs() =~= Seq::<(Seq<char>, V::V)>::empty());
        res
    }

    /// The number of entries.
    pub fn len(&self) -> (res: usize)
        ensures
            res == self.pairs().len(),
    {
        self.entries.len()
    }

    /// The key of entry `i`.
    pub fn key_at(&self, i: usize) -> (res: &String)
        requires
            i < self.pairs().len(),
        ensures
            res@ == self.pairs()[i as int].0,
    {
        &self.entries[i].0
    }

    /// The value of entry `i`.
    pub fn value_at(&self, i: usize) -> (res: &V)
        requires
            i < self.pairs().len(),
        ensures
            res@ == self.pairs()[i as int].1,
    {
        &self.entries[i].1
    }

    /// The position of `key` among the entries, if it is there.
    pub fn find(&self, key: &String) -> (res: Option<usize>)
        requires
            self.wf(),
        ensures
            match res {
                Some(i) => i < self.pairs().len() && self.pairs()[i as int].0 == key@,
                None => !self.map().dom().contains(key@),
            },
            res is Some <==> self.map().dom().contains(key@),
            res matches Some(i) ==> self.map()[key@] == self.pairs()[i as int].1,
    {
        let mut i: usize = 0;
        while i < self.entries.len()
            invariant
                i <= self.entries@.len(),
                self.wf(),
                forall|j: int| 0 <= j < i ==> #[trigger] self.pairs()[j].0 != key@,
            decreases self.entries@.len() - i,
        {
            assert(self.pairs()[i as int].0 == self.entries@[i as int].0@);
            if self.entries[i].0 == *key {
                proof {
                    lemma_pairs_map_lookup(self.pairs(), key@);
                }
                return Some(i);
            }
            i = i + 1;
        }
        proof {
            lemma_pairs_map_lookup(self.pairs(), key@);
        }
        None
    }

    /// Enters `value` under `key`: in place where the key is there, else at the end.
    pub fn insert(&mut self, key: String, value: V)
        requires
            old(self).wf(),
        ensures
            final(self).wf(),
            final(self).map() == old(self).map().insert(key@, value@),
            old(self).map().dom().contains(key@) ==> final(self).pairs().len() == old(self).pairs().len(),
            forall|i: int| 0 <= i < old(self).pairs().len() ==> #[trigger] final(self).pairs()[i].0 == old(self).pairs()[i].0,
            !old(self).map().dom().contains(key@) ==> final(self).pairs() == old(self).pairs().push((key@, value@)),
    {
        let ghost p = self.pairs();
        let ghost kv = key@;
        let ghost vv = value@;
        match self.find(&key) {
            Some(i) => {
                self.entries.remove(i);
                self.entries.insert(i, (key, value));
                proof {
                    assert(self.pairs() =~= p.update(i as int, (p[i as int].0, vv)));
                    lemma_pairs_map_update(p, i as int, vv);
                }
            },
            None => {
                self.entries.push((key, value));
                proof {
                    assert(self.pairs() =~= p.push((kv, vv)));
                    lemma_pairs_map_lookup(p, kv);
                    assert(self.pairs().drop_last() =~= p);
                }
            },
        }
    }

    /// Takes the value under `key` out of the table.
    pub fn remove(&mut self, key: &String) -> (res: Option<V>)
        requires
            old(self).wf(),
        ensures
            final(self).wf(),
            final(self).map() == old(self).map().remove(key@),
            match res {
                Some(v) => old(self).map().dom().contains(key@) && v@ == old(self).map()[key@],
                None => !old(self).map().dom().contains(key@),
            },
    {
        let ghost p = self.pairs();
        match self.find(key) {
            Some(i) => {
                let e = self.entries.remove(i);
                proof {
                    assert(self.pairs() =~= p.remove(i as int));
                    lemma_pairs_map_remove(p, i as int);
                }
                Some(e.1)
            },
            None => {
                proof {
                    assert(old(self).map().remove(key@) =~= old(self).map());
                }
                None
            },
        }
    }
}

} // verus!
