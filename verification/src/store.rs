//! A small verified map from asset ids to values, backed by an association
//! list with unique keys. It models the per-site asset store and the
//! request-timestamp table.

use vstd::prelude::*;

use crate::ids::AssetId;

verus! {

/// A map from `AssetId` to `V`, with exact `Map` semantics.
pub struct VecMap<V> {
    entries: Vec<(AssetId, V)>,
}

/// The map an association list denotes (later entries win; with unique keys
/// the order is immaterial).
pub open spec fn map_of<V>(s: Seq<(AssetId, V)>) -> Map<AssetId, V>
    decreases s.len(),
{
    if s.len() == 0 {
        Map::empty()
    } else {
        map_of(s.drop_last()).insert(s.last().0, s.last().1)
    }
}

/// No key occurs twice.
pub open spec fn unique_keys<V>(s: Seq<(AssetId, V)>) -> bool {
    forall|i: int, j: int| 0 <= i < j < s.len() ==> (#[trigger] s[i]).0 != (#[trigger] s[j]).0
}

proof fn lemma_map_of_keys<V>(s: Seq<(AssetId, V)>)
    ensures
        forall|x: AssetId|
            #[trigger] map_of(s).contains_key(x) <==> exists|i: int|
                0 <= i < s.len() && (#[trigger] s[i]).0 == x,
    decreases s.len(),
{
    if s.len() > 0 {
        lemma_map_of_keys(s.drop_last());
        assert forall|x: AssetId| #[trigger] map_of(s).contains_key(x) implies exists|i: int|
            0 <= i < s.len() && (#[trigger] s[i]).0 == x by {
            if x == s.last().0 {
                assert(s[s.len() - 1].0 == x);
            } else {
                assert(map_of(s.drop_last()).contains_key(x));
                let i = choose|i: int|
                    0 <= i < s.drop_last().len() && (#[trigger] s.drop_last()[i]).0 == x;
                assert(s.drop_last()[i] == s[i]);
                assert(s[i].0 == x);
            }
        }
        assert forall|x: AssetId|
            (exists|i: int| 0 <= i < s.len() && (#[trigger] s[i]).0 == x) implies map_of(
            s,
        ).contains_key(x) by {
            let i = choose|i: int| 0 <= i < s.len() && (#[trigger] s[i]).0 == x;
            if i < s.len() - 1 {
                assert(s.drop_last()[i] == s[i]);
                assert(exists|j: int|
                    0 <= j < s.drop_last().len() && (#[trigger] s.drop_last()[j]).0 == x);
                assert(map_of(s.drop_last()).contains_key(x));
            } else {
                assert(x == s.last().0);
            }
        }
    }
}

proof fn lemma_map_of_at<V>(s: Seq<(AssetId, V)>, i: int)
    requires
        unique_keys(s),
        0 <= i < s.len(),
    ensures
        map_of(s).contains_key(s[i].0),
        map_of(s)[s[i].0] == s[i].1,
    decreases s.len(),
{
    if i == s.len() - 1 {
    } else {
        assert(s.drop_last()[i] == s[i]);
        lemma_map_of_at(s.drop_last(), i);
        assert(s[s.len() - 1].0 != s[i].0);
    }
}

proof fn lemma_map_of_update<V>(s: Seq<(AssetId, V)>, i: int, a: AssetId, v: V)
    requires
        unique_keys(s),
        0 <= i < s.len(),
        s[i].0 == a,
    ensures
        map_of(s.update(i, (a, v))) == map_of(s).insert(a, v),
    decreases s.len(),
{
    let t = s.update(i, (a, v));
    if i == s.len() - 1 {
        assert(t.drop_last() =~= s.drop_last());
        assert(t.last() == (a, v));
        assert(map_of(t) == map_of(s.drop_last()).insert(a, v));
        assert(map_of(s.drop_last()).insert(a, s.last().1).insert(a, v) =~= map_of(
            s.drop_last(),
        ).insert(a, v));
    } else {
        assert(t.drop_last() =~= s.drop_last().update(i, (a, v)));
        assert(s.drop_last()[i] == s[i]);
        lemma_map_of_update(s.drop_last(), i, a, v);
        let l = s.last();
        assert(t.last() == l);
        assert(l.0 != a);
        assert(map_of(t) == map_of(s.drop_last()).insert(a, v).insert(l.0, l.1));
        assert(map_of(s.drop_last()).insert(a, v).insert(l.0, l.1) =~= map_of(
            s.drop_last(),
        ).insert(l.0, l.1).insert(a, v));
    }
}

proof fn lemma_map_of_remove_at<V>(s: Seq<(AssetId, V)>, i: int)
    requires
        unique_keys(s),
        0 <= i < s.len(),
    ensures
        map_of(s.remove(i)) == map_of(s).remove(s[i].0),
    decreases s.len(),
{
    let a = s[i].0;
    let t = s.remove(i);
    if i == s.len() - 1 {
        assert(t =~= s.drop_last());
        lemma_map_of_keys(s.drop_last());
        assert forall|j: int| 0 <= j < s.drop_last().len() implies (#[trigger] s.drop_last()[j]).0
            != a by {
            assert(s[j] == s.drop_last()[j]);
        }
        assert(!map_of(s.drop_last()).contains_key(a));
        assert(map_of(s.drop_last()).insert(a, s.last().1).remove(a) =~= map_of(s.drop_last()));
    } else {
        let l = s.last();
        assert(t.drop_last() =~= s.drop_last().remove(i));
        assert(t.last() == l);
        assert(s.drop_last()[i] == s[i]);
        lemma_map_of_remove_at(s.drop_last(), i);
        assert(l.0 != a);
        assert(map_of(t) == map_of(s.drop_last()).remove(a).insert(l.0, l.1));
        assert(map_of(s.drop_last()).remove(a).insert(l.0, l.1) =~= map_of(s.drop_last()).insert(
            l.0,
            l.1,
        ).remove(a));
    }
}

impl<V: Copy> VecMap<V> {
    /// Keys are unique, so lookups are unambiguous.
    pub closed spec fn wf(&self) -> bool {
        unique_keys(self.entries@)
    }

    pub fn new() -> (r: Self)
        ensures
            r.wf(),
            r@ == Map::<AssetId, V>::empty(),
    {
        VecMap { entries: Vec::new() }
    }

    fn index_of(&self, a: AssetId) -> (r: Option<usize>)
        ensures
            match r {
                Some(i) => i < self.entries@.len() && self.entries@[i as int].0 == a,
                None => forall|i: int| 0 <= i < self.entries@.len() ==> (#[trigger] self.entries@[i]).0 != a,
            },
    {
        let mut i: usize = 0;
        while i < self.entries.len()
            invariant
                0 <= i <= self.entries@.len(),
                forall|j: int| 0 <= j < i ==> (#[trigger] self.entries@[j]).0 != a,
            decreases self.entries@.len() - i,
        {
            let e = &self.entries[i];
            if e.0 == a {
                return Some(i);
            }
            i = i + 1;
        }
        None
    }

    pub fn contains_key(&self, a: AssetId) -> (r: bool)
        requires
            self.wf(),
        ensures
            r == self@.contains_key(a),
    {
        let idx = self.index_of(a);
        proof {
            lemma_map_of_keys(self.entries@);
        }
        match idx {
            Some(i) => {
                proof {
                    assert(exists|j: int|
                        0 <= j < self.entries@.len() && (#[trigger] self.entries@[j]).0 == a);
                }
                true
            },
            None => false,
        }
    }

    pub fn get(&self, a: AssetId) -> (r: Option<V>)
        requires
            self.wf(),
        ensures
            match r {
                Some(v) => self@.contains_key(a) && v == self@[a],
                None => !self@.contains_key(a),
            },
    {
        proof {
            lemma_map_of_keys(self.entries@);
        }
        match self.index_of(a) {
            Some(i) => {
                proof {
                    lemma_map_of_at(self.entries@, i as int);
                }
                let e = &self.entries[i];
                Some(e.1)
            },
            None => None,
        }
    }

    /// Insert or overwrite.
    pub fn insert(&mut self, a: AssetId, v: V)
        requires
            old(self).wf(),
        ensures
            final(self).wf(),
            final(self)@ == old(self)@.insert(a, v),
    {
        let ghost s0 = self.entries@;
        match self.index_of(a) {
            Some(i) => {
                self.entries.set(i, (a, v));
                proof {
                    lemma_map_of_update(s0, i as int, a, v);
                    assert forall|p: int, q: int|
                        0 <= p < q < self.entries@.len() implies (#[trigger] self.entries@[p]).0
                        != (#[trigger] self.entries@[q]).0 by {
                        assert(s0[p].0 == self.entries@[p].0 || p == i);
                        assert(s0[q].0 == self.entries@[q].0 || q == i);
                    }
                }
            },
            None => {
                self.entries.push((a, v));
                proof {
                    assert(self.entries@.drop_last() =~= s0);
                    assert forall|p: int, q: int|
                        0 <= p < q < self.entries@.len() implies (#[trigger] self.entries@[p]).0
                        != (#[trigger] self.entries@[q]).0 by {
                        if q == self.entries@.len() - 1 {
                            assert(self.entries@[p] == s0[p]);
                            assert(s0[p].0 != a);
                        }
                    }
                }
            },
        }
    }

    /// Remove the entry for `a`, if any.
    pub fn remove(&mut self, a: AssetId)
        requires
            old(self).wf(),
        ensures
            final(self).wf(),
            final(self)@ == old(self)@.remove(a),
    {
        let ghost s0 = self.entries@;
        match self.index_of(a) {
            Some(i) => {
                self.entries.remove(i);
                proof {
                    lemma_map_of_remove_at(s0, i as int);
                    assert forall|p: int, q: int|
                        0 <= p < q < self.entries@.len() implies (#[trigger] self.entries@[p]).0
                        != (#[trigger] self.entries@[q]).0 by {
                        let pp = if p < i {
                            p
                        } else {
                            p + 1
                        };
                        let qq = if q < i {
                            q
                        } else {
                            q + 1
                        };
                        assert(self.entries@[p] == s0[pp]);
                        assert(self.entries@[q] == s0[qq]);
                    }
                }
            },
            None => {
                proof {
                    lemma_map_of_keys(s0);
                    assert(!self@.contains_key(a));
                    assert(self@.remove(a) =~= self@);
                }
            },
        }
    }

    /// Insert every entry of `other`, overwriting on key collisions.
    pub fn merge_from(&mut self, other: VecMap<V>)
        requires
            old(self).wf(),
        ensures
            final(self).wf(),
            final(self)@ == old(self)@.union_prefer_right(other@),
    {
        let ghost src = other.entries@;
        let entries = other.entries;
        let mut i: usize = 0;
        proof {
            assert(self@.union_prefer_right(map_of(src.take(0))) =~= self@);
        }
        while i < entries.len()
            invariant
                0 <= i <= src.len(),
                entries@ == src,
                self.wf(),
                self@ == old(self)@.union_prefer_right(map_of(src.take(i as int))),
            decreases src.len() - i,
        {
            let e = &entries[i];
            self.insert(e.0, e.1);
            proof {
                let t1 = src.take(i + 1);
                assert(t1.drop_last() =~= src.take(i as int));
                assert(t1.last() == src[i as int]);
                assert(map_of(t1) == map_of(src.take(i as int)).insert(src[i as int].0, src[i as int].1));
                assert(old(self)@.union_prefer_right(map_of(t1)) =~= old(self)@.union_prefer_right(
                    map_of(src.take(i as int)),
                ).insert(src[i as int].0, src[i as int].1));
            }
            i = i + 1;
        }
        proof {
            assert(src.take(src.len() as int) =~= src);
        }
    }

    /// The number of entries.
    pub fn len(&self) -> (r: usize)
        requires
            self.wf(),
        ensures
            r == self@.dom().len(),
    {
        proof {
            lemma_map_of_dom_len(self.entries@);
        }
        self.entries.len()
    }
}

impl<V> View for VecMap<V> {
    type V = Map<AssetId, V>;

    closed spec fn view(&self) -> Map<AssetId, V> {
        map_of(self.entries@)
    }
}

proof fn lemma_map_of_dom_len<V>(s: Seq<(AssetId, V)>)
    requires
        unique_keys(s),
    ensures
        map_of(s).dom().finite(),
        map_of(s).dom().len() == s.len(),
    decreases s.len(),
{
    if s.len() > 0 {
        lemma_map_of_dom_len(s.drop_last());
        lemma_map_of_keys(s.drop_last());
        assert forall|j: int| 0 <= j < s.drop_last().len() implies (#[trigger] s.drop_last()[j]).0
            != s.last().0 by {
            assert(s[j] == s.drop_last()[j]);
        }
        assert(!map_of(s.drop_last()).contains_key(s.last().0));
        assert(map_of(s).dom() =~= map_of(s.drop_last()).dom().insert(s.last().0));
        vstd::set::axiom_set_insert_len(map_of(s.drop_last()).dom(), s.last().0);
    }
}

} // verus!
