use vstd::prelude::*;

use crate::item::Item;

verus! {

/// The keyed dataset as a mathematical map built left to right from a list
/// of entries.
pub open spec fn map_of(es: Seq<(u64, Item)>) -> Map<u64, Item>
    decreases es.len(),
{
    if es.len() == 0 {
        Map::empty()
    } else {
        map_of(es.drop_last()).insert(es.last().0, es.last().1)
    }
}

pub open spec fn keys_unique(es: Seq<(u64, Item)>) -> bool {
    forall|i: int, j: int| 0 <= i < j < es.len() ==> (#[trigger] es[i]).0 != (#[trigger] es[j]).0
}

pub proof fn lemma_map_of_contains(es: Seq<(u64, Item)>, k: u64)
    ensures
        map_of(es).contains_key(k) <==> exists|i: int| 0 <= i < es.len() && (#[trigger] es[i]).0 == k,
    decreases es.len(),
{
    if es.len() > 0 {
        lemma_map_of_contains(es.drop_last(), k);
        if es.last().0 == k {
            assert((es[es.len() - 1]).0 == k);
        } else if map_of(es).contains_key(k) {
            let i = choose|i: int| 0 <= i < es.drop_last().len() && (#[trigger] es.drop_last()[i]).0 == k;
            assert((es[i]).0 == k);
        } else {
            assert forall|i: int| 0 <= i < es.len() implies (#[trigger] es[i]).0 != k by {
                if i < es.len() - 1 {
                    assert(es.drop_last()[i] == es[i]);
                }
            }
        }
    }
}

pub proof fn lemma_map_of_index(es: Seq<(u64, Item)>, i: int)
    requires
        keys_unique(es),
        0 <= i < es.len(),
    ensures
        map_of(es).contains_key(es[i].0),
        map_of(es)[es[i].0] == es[i].1,
    decreases es.len(),
{
    if i == es.len() - 1 {
        assert(map_of(es) == map_of(es.drop_last()).insert(es.last().0, es.last().1));
    } else {
        assert forall|a: int, b: int|
            0 <= a < b < es.drop_last().len() implies (#[trigger] es.drop_last()[a]).0 != (
        #[trigger] es.drop_last()[b]).0 by {
            assert(es.drop_last()[a] == es[a]);
            assert(es.drop_last()[b] == es[b]);
        }
        assert(es.drop_last()[i] == es[i]);
        lemma_map_of_index(es.drop_last(), i);
        assert(es[i].0 != es.last().0) by {
            assert(es.last() == es[es.len() - 1]);
        }
    }
}

pub proof fn lemma_map_of_update(es: Seq<(u64, Item)>, i: int, v: Item)
    requires
        keys_unique(es),
        0 <= i < es.len(),
    ensures
        map_of(es.update(i, (es[i].0, v))) == map_of(es).insert(es[i].0, v),
    decreases es.len(),
{
    let k = es[i].0;
    let es2 = es.update(i, (k, v));
    if i == es.len() - 1 {
        assert(es2.drop_last() =~= es.drop_last());
        assert(es2.last() == (k, v));
        assert(map_of(es2) == map_of(es.drop_last()).insert(k, v));
        assert(map_of(es).insert(k, v) =~= map_of(es.drop_last()).insert(k, v)) by {
            assert(map_of(es) == map_of(es.drop_last()).insert(es.last().0, es.last().1));
            assert(es.last().0 == k);
        }
    } else {
        assert forall|a: int, b: int|
            0 <= a < b < es.drop_last().len() implies (#[trigger] es.drop_last()[a]).0 != (
        #[trigger] es.drop_last()[b]).0 by {
            assert(es.drop_last()[a] == es[a]);
            assert(es.drop_last()[b] == es[b]);
        }
        assert(es.drop_last()[i] == es[i]);
        lemma_map_of_update(es.drop_last(), i, v);
        assert(es2.drop_last() =~= es.drop_last().update(i, (k, v)));
        assert(es2.last() == es.last());
        assert(es.last().0 != k) by {
            assert(es.last() == es[es.len() - 1]);
        }
        assert(map_of(es2) == map_of(es.drop_last()).insert(k, v).insert(es.last().0, es.last().1));
        assert(map_of(es.drop_last()).insert(k, v).insert(es.last().0, es.last().1) =~= map_of(
            es.drop_last(),
        ).insert(es.last().0, es.last().1).insert(k, v));
    }
}

/// Keyed collection of item records, one entry per identifier.
pub struct Dataset {
    pub entries: Vec<(u64, Item)>,
}

impl View for Dataset {
    type V = Map<u64, Item>;

    open spec fn view(&self) -> Map<u64, Item> {
        map_of(self.entries@)
    }
}

impl Dataset {
    /// Well-formed: one entry per identifier, each record structurally sound.
    pub open spec fn wf(self) -> bool {
        &&& keys_unique(self.entries@)
        &&& forall|i: int| 0 <= i < self.entries@.len() ==> (#[trigger] self.entries@[i]).1.wf()
    }

    pub fn empty() -> (r: Dataset)
        ensures
            r.wf(),
            r@ == Map::<u64, Item>::empty(),
            r.entries@.len() == 0,
    {
        Dataset { entries: Vec::new() }
    }

    pub fn len(&self) -> (r: usize)
        ensures
            r == self.entries@.len(),
    {
        self.entries.len()
    }

    /// Index of the entry that holds `id`, if any.
    fn find(&self, id: u64) -> (r: Option<usize>)
        ensures
            match r {
                Some(i) => i < self.entries@.len() && self.entries@[i as int].0 == id,
                None => forall|i: int|
                    0 <= i < self.entries@.len() ==> (#[trigger] self.entries@[i]).0 != id,
            },
    {
        let n = self.entries.len();
        let mut i: usize = 0;
        while i < n
            invariant
                i <= n,
                n == self.entries@.len(),
                forall|j: int| 0 <= j < i ==> (#[trigger] self.entries@[j]).0 != id,
            decreases n - i,
        {
            if self.entries[i].0 == id {
                return Some(i);
            }
            i += 1;
        }
        None
    }

    pub fn contains(&self, id: u64) -> (r: bool)
        ensures
            r == self@.contains_key(id),
    {
        proof {
            lemma_map_of_contains(self.entries@, id);
        }
        self.find(id).is_some()
    }

    /// The record stored under `id`, if any.
    pub fn get(&self, id: u64) -> (r: Option<Item>)
        requires
            self.wf(),
        ensures
            self@.contains_key(id) ==> r == Some(self@[id]),
            !self@.contains_key(id) ==> r is None,
    {
        proof {
            lemma_map_of_contains(self.entries@, id);
        }
        match self.find(id) {
            Some(i) => {
                proof {
                    lemma_map_of_index(self.entries@, i as int);
                }
                Some(self.entries[i].1)
            },
            None => None,
        }
    }

    /// Stores `item` under `id`, replacing any previous record.
    pub fn insert(&mut self, id: u64, item: Item)
        requires
            old(self).wf(),
            item.wf(),
        ensures
            final(self).wf(),
            final(self)@ == old(self)@.insert(id, item),
            !old(self)@.contains_key(id) ==> final(self).entries@ == old(self).entries@.push(
                (id, item),
            ),
    {
        proof {
            lemma_map_of_contains(self.entries@, id);
        }
        match self.find(id) {
            Some(i) => {
                proof {
                    lemma_map_of_update(self.entries@, i as int, item);
                }
                self.entries[i] = (id, item);
                assert(final(self).entries@ =~= old(self).entries@.update(
                    i as int,
                    (id, item),
                ));
                assert forall|a: int, b: int|
                    0 <= a < b < self.entries@.len() implies (#[trigger] self.entries@[a]).0 != (
                #[trigger] self.entries@[b]).0 by {
                    assert(old(self).entries@[a].0 != old(self).entries@[b].0);
                }
            },
            None => {
                self.entries.push((id, item));
                proof {
                    assert(self.entries@.drop_last() =~= old(self).entries@);
                    assert(self.entries@.last() == (id, item));
                    assert forall|a: int, b: int|
                        0 <= a < b < self.entries@.len() implies (#[trigger] self.entries@[a]).0
                        != (#[trigger] self.entries@[b]).0 by {
                        if b < self.entries@.len() - 1 {
                            assert(old(self).entries@[a].0 != old(self).entries@[b].0);
                        } else {
                            lemma_map_of_contains(old(self).entries@, old(self).entries@[a].0);
                        }
                    }
                }
            },
        }
    }
}

} // verus!
